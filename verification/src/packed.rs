//! The packed virtqueue: the unified ring layout with wrap counters.
//!
//! Driver and device share one descriptor ring. Availability is
//! encoded in each descriptor's `AVAIL`/`USED` flag bits against a
//! single-bit wrap counter that flips whenever a cursor passes the end
//! of the ring: the driver publishes a descriptor with `AVAIL` equal
//! to its wrap counter and `USED` opposite, and the device retires it
//! by writing both bits equal.

use vstd::prelude::*;

use crate::buffer::{
    lemma_seq_sum_mono, seq_sum, seq_sum_upto, BuffSpec, Buffer, BufferToken, TransferState,
    TransferToken,
};
use crate::mempool::RawRegion;
use crate::error::VirtqError;
use crate::mempool::{
    lemma_size_bounds, lemma_sum_aligned_mono, lemma_sum_le_aligned, seq_sum_aligned,
    sum_aligned_upto, MemDescr, MemPool, ARENA_CAPACITY, WORD_ALIGN,
};
use crate::{
    bit_is_set, feature_is_set, VqIndex, VqSize, F_INDIRECT_DESC, VIRTQ_DESC_F_AVAIL,
    VIRTQ_DESC_F_INDIRECT, VIRTQ_DESC_F_NEXT, VIRTQ_DESC_F_USED, VIRTQ_DESC_F_WRITE,
};

verus! {

/// Errors of the packed queue construction path.
#[derive(Copy, Clone, Debug, PartialEq, Eq, Structural)]
pub enum VqPackedError {
    /// Unspecified transport failure.
    General,
    /// The size violates the packed queue's constraints.
    SizeNotAllowed(u16),
    /// The transport knows no queue of this index.
    QueueNotExisting(u16),
}

/// A single-bit wrap counter of the packed layout.
#[derive(Copy, Clone, Debug, PartialEq, Eq, Structural)]
pub struct WrapCount(pub bool);

impl WrapCount {
    /// A fresh wrap counter, which starts at 1.
    pub fn new() -> (r: WrapCount)
        ensures
            r.0 == true,
    {
        WrapCount(true)
    }

    /// Flips the counter to the respective other value.
    pub fn wrap(&mut self)
        ensures
            final(self).0 == !old(self).0,
    {
        if self.0 == false {
            self.0 = true;
        } else {
            self.0 = false;
        }
    }

    /// The avail and used flag bits a freshly published descriptor
    /// carries under this counter: `AVAIL` matches the counter and
    /// `USED` does not.
    pub fn as_flags(&self) -> (r: u16)
        ensures
            r == spec_publish_flag_bits(self.0),
    {
        proof {
            assert(1u16 << 7 == 0x80) by (bit_vector);
            assert(1u16 << 15 == 0x8000) by (bit_vector);
        }
        if self.0 == true {
            1u16 << 7
        } else {
            1u16 << 15
        }
    }
}

/// The avail/used flag bits of a descriptor published under wrap
/// counter `wrap`: `AVAIL == wrap`, `USED == !wrap`.
pub open spec fn spec_publish_flag_bits(wrap: bool) -> u16 {
    if wrap {
        VIRTQ_DESC_F_AVAIL
    } else {
        VIRTQ_DESC_F_USED
    }
}

/// A flag word made of `base` (chain and indirect bits, below the
/// avail bit) plus the given avail and used bits.
pub open spec fn spec_make_flags(base: u16, avail: bool, used: bool) -> u16 {
    (base + (if avail {
        VIRTQ_DESC_F_AVAIL as int
    } else {
        0
    }) + (if used {
        VIRTQ_DESC_F_USED as int
    } else {
        0
    })) as u16
}

/// Composing a flag word from a small base and the two phase bits
/// decomposes back into exactly those parts.
pub proof fn lemma_flag_decomp(base: u16, avail: bool, used: bool)
    requires
        base <= 7,
    ensures
        bit_is_set(spec_make_flags(base, avail, used), VIRTQ_DESC_F_AVAIL) == avail,
        bit_is_set(spec_make_flags(base, avail, used), VIRTQ_DESC_F_USED) == used,
        bit_is_set(spec_make_flags(base, avail, used), VIRTQ_DESC_F_NEXT) == bit_is_set(
            base,
            VIRTQ_DESC_F_NEXT,
        ),
        bit_is_set(spec_make_flags(base, avail, used), VIRTQ_DESC_F_WRITE) == bit_is_set(
            base,
            VIRTQ_DESC_F_WRITE,
        ),
        bit_is_set(spec_make_flags(base, avail, used), VIRTQ_DESC_F_INDIRECT) == bit_is_set(
            base,
            VIRTQ_DESC_F_INDIRECT,
        ),
{
    let av: u16 = if avail {
        1
    } else {
        0
    };
    let us: u16 = if used {
        1
    } else {
        0
    };
    let v = spec_make_flags(base, avail, used);
    assert(v == base + av * 0x80 + us * 0x8000) by (bit_vector)
        requires
            base <= 7,
            av <= 1,
            us <= 1,
            v == (base + (if av == 1 {
                0x80 as int
            } else {
                0
            }) + (if us == 1 {
                0x8000 as int
            } else {
                0
            })) as u16,
    ;
    assert((((base + av * 0x80 + us * 0x8000) as u16) / 0x80) % 2 == av && (((base + av * 0x80 + us
        * 0x8000) as u16) / 0x8000) % 2 == us && (((base + av * 0x80 + us * 0x8000) as u16) / 1) % 2
        == (base / 1) % 2 && (((base + av * 0x80 + us * 0x8000) as u16) / 2) % 2 == (base / 2) % 2
        && (((base + av * 0x80 + us * 0x8000) as u16) / 4) % 2 == (base / 4) % 2) by (bit_vector)
        requires
            base <= 7,
            av <= 1,
            us <= 1,
    ;
}

/// Builds a descriptor flag word from a small base plus the avail and
/// used phase bits.
pub fn build_flags(base: u16, avail: bool, used: bool) -> (r: u16)
    requires
        base <= 7,
    ensures
        r == spec_make_flags(base, avail, used),
{
    base + (if avail {
        VIRTQ_DESC_F_AVAIL
    } else {
        0
    }) + (if used {
        VIRTQ_DESC_F_USED
    } else {
        0
    })
}

/// A 16-byte descriptor of the packed ring layout.
#[derive(Copy, Clone, Debug, PartialEq, Eq, Structural)]
pub struct Descriptor {
    /// Device-visible address of the buffer.
    pub address: u64,
    /// Length of the buffer in bytes; on a used descriptor, the bytes
    /// the device wrote.
    pub len: u32,
    /// Identifier of the chain this descriptor belongs to.
    pub buff_id: u16,
    /// Flag word: chain bits plus the avail/used phase bits.
    pub flags: u16,
}

/// The little-endian wire image of a packed descriptor.
pub open spec fn spec_desc_bytes(d: Descriptor) -> Seq<u8> {
    seq![
        (d.address as int % 0x100) as u8,
        ((d.address as int / 0x100) % 0x100) as u8,
        ((d.address as int / 0x1_0000) % 0x100) as u8,
        ((d.address as int / 0x100_0000) % 0x100) as u8,
        ((d.address as int / 0x1_0000_0000) % 0x100) as u8,
        ((d.address as int / 0x100_0000_0000) % 0x100) as u8,
        ((d.address as int / 0x1_0000_0000_0000) % 0x100) as u8,
        ((d.address as int / 0x100_0000_0000_0000) % 0x100) as u8,
        (d.len as int % 0x100) as u8,
        ((d.len as int / 0x100) % 0x100) as u8,
        ((d.len as int / 0x1_0000) % 0x100) as u8,
        ((d.len as int / 0x100_0000) % 0x100) as u8,
        (d.buff_id as int % 0x100) as u8,
        ((d.buff_id as int / 0x100) % 0x100) as u8,
        (d.flags as int % 0x100) as u8,
        ((d.flags as int / 0x100) % 0x100) as u8,
    ]
}

impl Descriptor {
    /// A descriptor from its four fields.
    pub fn new(add: u64, len: u32, id: u16, flags: u16) -> (r: Descriptor)
        ensures
            r.address == add,
            r.len == len,
            r.buff_id == id,
            r.flags == flags,
    {
        Descriptor { address: add, len, buff_id: id, flags }
    }

    /// The 16-byte little-endian wire image of this descriptor, as the
    /// device reads it: address, length, buffer identifier, flags.
    pub fn to_le_bytes(self) -> (r: Vec<u8>)
        ensures
            r@ == spec_desc_bytes(self),
    {
        let mut desc_bytes: Vec<u8> = Vec::new();
        let a = self.address;
        desc_bytes.push((a % 0x100) as u8);
        desc_bytes.push(((a / 0x100) % 0x100) as u8);
        desc_bytes.push(((a / 0x1_0000) % 0x100) as u8);
        desc_bytes.push(((a / 0x100_0000) % 0x100) as u8);
        desc_bytes.push(((a / 0x1_0000_0000) % 0x100) as u8);
        desc_bytes.push(((a / 0x100_0000_0000) % 0x100) as u8);
        desc_bytes.push(((a / 0x1_0000_0000_0000) % 0x100) as u8);
        desc_bytes.push(((a / 0x100_0000_0000_0000) % 0x100) as u8);
        let l = self.len;
        desc_bytes.push((l % 0x100) as u8);
        desc_bytes.push(((l / 0x100) % 0x100) as u8);
        desc_bytes.push(((l / 0x1_0000) % 0x100) as u8);
        desc_bytes.push(((l / 0x100_0000) % 0x100) as u8);
        let id = self.buff_id;
        desc_bytes.push((id % 0x100) as u8);
        desc_bytes.push(((id / 0x100) % 0x100) as u8);
        let f = self.flags;
        desc_bytes.push((f % 0x100) as u8);
        desc_bytes.push(((f / 0x100) % 0x100) as u8);
        proof {
            assert(desc_bytes@ =~= spec_desc_bytes(self));
        }
        desc_bytes
    }

    /// Whether the device has retired this descriptor under the given
    /// used-phase wrap counter: both phase bits equal the counter.
    pub fn is_used(&self, wrap: bool) -> (r: bool)
        ensures
            r == (bit_is_set(self.flags, VIRTQ_DESC_F_AVAIL) == wrap && bit_is_set(
                self.flags,
                VIRTQ_DESC_F_USED,
            ) == wrap),
    {
        let avail_bit = (self.flags / VIRTQ_DESC_F_AVAIL) % 2 == 1;
        let used_bit = (self.flags / VIRTQ_DESC_F_USED) % 2 == 1;
        avail_bit == wrap && used_bit == wrap
    }
}

/// The control descriptor of an indirect token: the send side's where
/// both sides share one table, else the side that is present.
pub open spec fn spec_ctrl_of(bt: BufferToken) -> MemDescr {
    if bt.send_buff is Some && bt.send_buff.unwrap().is_indirect() {
        bt.send_buff.unwrap().spec_ctrl_desc().unwrap()
    } else {
        bt.recv_buff.unwrap().spec_ctrl_desc().unwrap()
    }
}

/// The buffer identifier under which a token's chain is published:
/// the control descriptor's for an indirect token, else the first
/// chain descriptor's.
pub open spec fn spec_head_id(bt: BufferToken) -> u16 {
    if bt.is_indirect() {
        spec_ctrl_of(bt).id
    } else if bt.send_descs().len() > 0 {
        bt.send_descs()[0].id
    } else {
        bt.recv_descs()[0].id
    }
}

/// The chain and indirect flag bits of the `j`-th published
/// descriptor of a token: `NEXT` on all but the last, `WRITE` on the
/// device-writable tail, `INDIRECT` alone on an indirect head.
pub open spec fn spec_chain_base_flags(bt: BufferToken, j: int) -> u16 {
    if bt.is_indirect() {
        VIRTQ_DESC_F_INDIRECT
    } else {
        (((if j < bt.send_descs().len() {
            0
        } else {
            VIRTQ_DESC_F_WRITE as int
        }) + (if j < bt.ring_len() - 1 {
            VIRTQ_DESC_F_NEXT as int
        } else {
            0
        })) as u16)
    }
}

/// The memory chunk behind the `j`-th published descriptor of a
/// token.
pub open spec fn spec_chain_mem(bt: BufferToken, j: int) -> MemDescr {
    if bt.is_indirect() {
        spec_ctrl_of(bt)
    } else if j < bt.send_descs().len() {
        bt.send_descs()[j]
    } else {
        bt.recv_descs()[j - bt.send_descs().len()]
    }
}

/// The `j`-th ring descriptor a token's dispatch publishes, under
/// wrap counter `w`: payload address and length, the head's buffer
/// identifier, and flags carrying the chain bits plus `AVAIL == w`,
/// `USED == !w`.
pub open spec fn spec_chain_desc(bt: BufferToken, j: int, id: u16, w: bool) -> Descriptor {
    Descriptor {
        address: spec_chain_mem(bt, j).addr,
        len: spec_chain_mem(bt, j).len as u32,
        buff_id: id,
        flags: spec_make_flags(spec_chain_base_flags(bt, j), w, !w),
    }
}

/// Chain ordering: within one published chain every device-writable
/// descriptor comes after every device-readable one.
pub proof fn lemma_chain_write_ordering(bt: BufferToken, i: int, j: int)
    requires
        !bt.is_indirect(),
        0 <= i <= j < bt.ring_len(),
        bit_is_set(spec_chain_base_flags(bt, i), VIRTQ_DESC_F_WRITE),
    ensures
        bit_is_set(spec_chain_base_flags(bt, j), VIRTQ_DESC_F_WRITE),
{
    assert(i >= bt.send_descs().len());
}

/// The wrap counter an absolute slot offset falls under: it starts at
/// 1 and flips with every full pass around the ring.
pub open spec fn spec_wrap_at(abs: nat, size: int) -> bool {
    ((abs as int / size) % 2) == 0
}

/// The ring slot `off` steps past `start`, wrapping at `size`.
pub open spec fn slot_at(start: int, off: int, size: int) -> int {
    (start + off) % size
}

/// Two sequences share no element.
pub open spec fn seqs_disjoint(a: Seq<u16>, b: Seq<u16>) -> bool {
    forall|x: u16| a.contains(x) ==> !b.contains(x)
}

/// Bookkeeping the queue keeps for one in-flight transfer. The token
/// rests here, at a stable place indexed by its buffer identifier,
/// while the device can see its chain.
pub struct PinnedToken {
    /// The in-flight transfer.
    pub tkn: TransferToken,
    /// Ring slot of the chain's head descriptor.
    pub head_pos: u16,
    /// Ring slots the chain covers.
    pub num_slots: u16,
    /// Wrap counter under which the chain was published.
    pub wrap: bool,
    /// Whether the device has retired the chain.
    pub reported: bool,
    /// Bytes the device reported written, once retired.
    pub reported_len: u32,
    /// Whether the caller dropped the transfer while it was in
    /// flight: its identifiers go back to the pool on retirement and
    /// nothing is delivered.
    pub dropped: bool,
    /// Absolute slot offset of the chain head since the ring was
    /// created; `head_pos` and `wrap` are its image in ring
    /// coordinates.
    pub abs_pos: Ghost<nat>,
}

/// The raw packed ring and the cursors that operate it.
pub struct DescriptorRing {
    /// The shared descriptor ring.
    pub ring: Vec<Descriptor>,
    /// Token references by buffer identifier; identifiers run from 1
    /// to the queue size, so slot 0 stays empty.
    pub tkn_ref_ring: Vec<Option<PinnedToken>>,
    /// Where the next available descriptor is inserted.
    pub write_index: u16,
    /// How many descriptors can still be inserted.
    pub capacity: u16,
    /// Where the next used descriptor is expected.
    pub poll_index: u16,
    /// Wrap counter of the write side.
    pub wrap_count: WrapCount,
    /// Wrap counter of the used phase at `poll_index`.
    pub poll_wrap_count: WrapCount,
    /// Buffer identifiers of the in-flight chains, oldest first.
    pub order: Ghost<Seq<u16>>,
    /// Absolute slot offset of the write cursor since creation.
    pub abs_write: Ghost<nat>,
    /// Absolute slot offset of the poll cursor since creation.
    pub abs_poll: Ghost<nat>,
}

impl DescriptorRing {
    /// Number of descriptors in the ring.
    pub open spec fn size(self) -> int {
        self.ring@.len() as int
    }

    /// Number of in-flight chains.
    pub open spec fn inflight_count(self) -> int {
        self.order@.len() as int
    }

    /// The bookkeeping of the `i`-th oldest in-flight chain.
    pub open spec fn entry(self, i: int) -> PinnedToken {
        self.tkn_ref_ring@[self.order@[i] as int].unwrap()
    }

    /// The ring equals `other` in every observable part.
    pub open spec fn unchanged_from(self, other: DescriptorRing) -> bool {
        &&& self.ring@ == other.ring@
        &&& self.tkn_ref_ring@ == other.tkn_ref_ring@
        &&& self.write_index == other.write_index
        &&& self.capacity == other.capacity
        &&& self.poll_index == other.poll_index
        &&& self.wrap_count == other.wrap_count
        &&& self.poll_wrap_count == other.poll_wrap_count
        &&& self.order@ == other.order@
        &&& self.abs_write@ == other.abs_write@
        &&& self.abs_poll@ == other.abs_poll@
    }

    /// The chain descriptor written at the head slot of the `i`-th
    /// chain reflects its bookkeeping: same identifier, `AVAIL` under
    /// its publish wrap, and `USED` flipped in exactly when the device
    /// retired it, together with the reported length.
    pub open spec fn head_desc_ok(self, i: int) -> bool {
        let e = self.entry(i);
        let d = self.ring@[e.head_pos as int];
        &&& d.buff_id == self.order@[i]
        &&& bit_is_set(d.flags, VIRTQ_DESC_F_AVAIL) == e.wrap
        &&& bit_is_set(d.flags, VIRTQ_DESC_F_USED) == (e.reported == e.wrap)
        &&& (e.reported ==> d.len == e.reported_len)
    }

    /// Well-formedness of the `i`-th in-flight chain's bookkeeping.
    pub open spec fn entry_wf(self, i: int) -> bool {
        let e = self.entry(i);
        &&& self.tkn_ref_ring@[self.order@[i] as int] is Some
        &&& 1 <= e.num_slots <= self.size()
        &&& e.num_slots as int == e.tkn.buff_tkn.ring_len()
        &&& e.tkn.buff_tkn.wf()
        &&& e.tkn.buff_tkn.fully_identified()
        &&& spec_head_id(e.tkn.buff_tkn) == self.order@[i]
        &&& e.tkn.state is Processing
        &&& e.head_pos < self.size()
        &&& e.head_pos as int == e.abs_pos@ as int % self.size()
        &&& e.wrap == spec_wrap_at(e.abs_pos@, self.size())
        &&& self.head_desc_ok(i)
        &&& (e.reported ==> match e.tkn.buff_tkn.recv_buff {
            Some(b) => e.reported_len as int <= b.spec_len(),
            None => e.reported_len == 0,
        })
    }

    /// The in-flight chains tile the ring back to back from the poll
    /// cursor up to the write cursor, in absolute slot offsets.
    pub open spec fn chain_layout(self) -> bool {
        let m = self.inflight_count();
        &&& (m == 0 ==> self.abs_write@ == self.abs_poll@)
        &&& (m > 0 ==> self.entry(0).abs_pos@ == self.abs_poll@)
        &&& (m > 0 ==> self.abs_write@ == self.entry(m - 1).abs_pos@ + self.entry(m - 1).num_slots)
        &&& forall|i: int|
            0 <= i < m - 1 ==> (#[trigger] self.entry(i + 1)).abs_pos@ == self.entry(i).abs_pos@
                + self.entry(i).num_slots
    }

    /// Well-formedness of the whole ring state.
    pub open spec fn wf(self) -> bool {
        &&& 1 <= self.size() <= 32768
        &&& self.tkn_ref_ring@.len() == self.size() + 1
        &&& self.tkn_ref_ring@[0] is None
        &&& self.capacity <= self.size()
        &&& self.abs_poll@ <= self.abs_write@
        &&& self.abs_write@ - self.abs_poll@ == self.size() - self.capacity
        &&& self.write_index as int == self.abs_write@ as int % self.size()
        &&& self.poll_index as int == self.abs_poll@ as int % self.size()
        &&& self.wrap_count.0 == spec_wrap_at(self.abs_write@, self.size())
        &&& self.poll_wrap_count.0 == spec_wrap_at(self.abs_poll@, self.size())
        &&& self.order@.no_duplicates()
        &&& forall|i: int|
            0 <= i < self.inflight_count() ==> 1 <= #[trigger] self.order@[i] <= self.size()
        &&& forall|id: int|
            1 <= id <= self.size() ==> ((#[trigger] self.tkn_ref_ring@[id]) is Some
                <==> self.order@.contains(id as u16))
        &&& forall|i: int| 0 <= i < self.inflight_count() ==> self.entry_wf(i)
        &&& self.chain_layout()
    }

    /// The pool is the one this ring draws identifiers from: every
    /// in-flight token's identifiers are valid, absent from the free
    /// list, distinct, and disjoint between tokens.
    pub open spec fn pool_ok(self, pool: MemPool) -> bool {
        &&& pool.wf()
        &&& pool.size as int == self.size()
        &&& forall|i: int| 0 <= i < self.inflight_count() ==> self.entry_ids_ok(i, pool)
        &&& forall|i: int, j: int|
            0 <= i < j < self.inflight_count() ==> seqs_disjoint(
                (#[trigger] self.entry(i)).tkn.buff_tkn.held_ids(),
                (#[trigger] self.entry(j)).tkn.buff_tkn.held_ids(),
            )
    }

    /// Identifier bookkeeping of one in-flight token against the
    /// pool.
    pub open spec fn entry_ids_ok(self, i: int, pool: MemPool) -> bool {
        let h = self.entry(i).tkn.buff_tkn.held_ids();
        &&& h.no_duplicates()
        &&& forall|x: int| 0 <= x < h.len() ==> 1 <= #[trigger] h[x] <= pool.size
        &&& forall|x: int| 0 <= x < h.len() ==> !pool.ids().contains(#[trigger] h[x])
    }

    /// A fresh ring of `size` zeroed descriptors, full capacity and
    /// both cursors at slot 0 with wrap counters at 1.
    pub fn new(size: u16) -> (r: DescriptorRing)
        requires
            1 <= size <= 32768,
        ensures
            r.wf(),
            r.size() == size,
            r.capacity == size,
            r.inflight_count() == 0,
            r.write_index == 0,
            r.poll_index == 0,
            r.wrap_count.0 == true,
            r.poll_wrap_count.0 == true,
            r.abs_write@ == 0,
            r.abs_poll@ == 0,
            forall|p: int|
                0 <= p < size ==> #[trigger] r.ring@[p] == (Descriptor {
                    address: 0,
                    len: 0,
                    buff_id: 0,
                    flags: 0,
                }),
    {
        let mut ring: Vec<Descriptor> = Vec::new();
        let mut i: usize = 0;
        while i < size as usize
            invariant
                i <= size,
                ring@.len() == i,
                forall|p: int|
                    0 <= p < i ==> #[trigger] ring@[p] == (Descriptor {
                        address: 0,
                        len: 0,
                        buff_id: 0,
                        flags: 0,
                    }),
            decreases size - i,
        {
            ring.push(Descriptor { address: 0, len: 0, buff_id: 0, flags: 0 });
            i = i + 1;
        }
        let mut tkn_ref_ring: Vec<Option<PinnedToken>> = Vec::new();
        let mut j: usize = 0;
        while j < size as usize + 1
            invariant
                j <= size + 1,
                tkn_ref_ring@.len() == j,
                forall|p: int| 0 <= p < j ==> (#[trigger] tkn_ref_ring@[p]) is None,
            decreases size + 1 - j,
        {
            tkn_ref_ring.push(None);
            j = j + 1;
        }
        let r = DescriptorRing {
            ring,
            tkn_ref_ring,
            write_index: 0,
            capacity: size,
            poll_index: 0,
            wrap_count: WrapCount::new(),
            poll_wrap_count: WrapCount::new(),
            order: Ghost(Seq::empty()),
            abs_write: Ghost(0),
            abs_poll: Ghost(0),
        };
        proof {
            assert(r.order@.len() == 0);
            assert forall|id: int| 1 <= id <= r.size() implies ((#[trigger] r.tkn_ref_ring@[id])
                is Some <==> r.order@.contains(id as u16)) by {
                assert(!r.order@.contains(id as u16));
            }
        }
        r
    }

    /// Every in-flight chain starts at or after the poll cursor.
    pub proof fn lemma_entry_abs_lower(self, i: int)
        requires
            self.wf(),
            0 <= i < self.inflight_count(),
        ensures
            self.abs_poll@ <= self.entry(i).abs_pos@,
        decreases i,
    {
        if i > 0 {
            self.lemma_entry_abs_lower(i - 1);
            assert(self.entry((i - 1) + 1).abs_pos@ == self.entry(i - 1).abs_pos@ + self.entry(
                i - 1,
            ).num_slots);
        }
    }

    /// Every in-flight chain ends at or before the write cursor.
    pub proof fn lemma_entry_abs_upper(self, i: int)
        requires
            self.wf(),
            0 <= i < self.inflight_count(),
        ensures
            self.entry(i).abs_pos@ + self.entry(i).num_slots <= self.abs_write@,
        decreases self.inflight_count() - i,
    {
        if i < self.inflight_count() - 1 {
            self.lemma_entry_abs_upper(i + 1);
            assert(self.entry(i + 1).abs_pos@ == self.entry(i).abs_pos@ + self.entry(i).num_slots);
        }
    }

    /// An earlier chain ends at or before a later one begins.
    pub proof fn lemma_entry_abs_monotone(self, i: int, j: int)
        requires
            self.wf(),
            0 <= i < j < self.inflight_count(),
        ensures
            self.entry(i).abs_pos@ + self.entry(i).num_slots <= self.entry(j).abs_pos@,
        decreases j - i,
    {
        assert(self.entry((j - 1) + 1).abs_pos@ == self.entry(j - 1).abs_pos@ + self.entry(
            j - 1,
        ).num_slots);
        if i < j - 1 {
            self.lemma_entry_abs_monotone(i, j - 1);
            assert(self.entry_wf(j - 1));
        }
    }

    /// Distinct in-flight chains have distinct head slots.
    pub proof fn lemma_head_distinct(self, i: int, j: int)
        requires
            self.wf(),
            0 <= i < j < self.inflight_count(),
        ensures
            self.entry(i).head_pos != self.entry(j).head_pos,
    {
        self.lemma_entry_abs_monotone(i, j);
        self.lemma_entry_abs_lower(i);
        self.lemma_entry_abs_upper(j);
        assert(self.entry_wf(i));
        assert(self.entry_wf(j));
        lemma_mod_distinct(
            self.entry(i).abs_pos@ as int,
            self.entry(j).abs_pos@ as int,
            self.size(),
        );
    }

    /// Whether the device's in-place retirement of chain `id` with
    /// `written_len` bytes written is acceptable: the chain is in
    /// flight, not yet retired, and the length fits the receive side.
    pub open spec fn spec_device_accepts(self, id: u16, written_len: u32) -> bool {
        &&& 1 <= id <= self.size()
        &&& self.tkn_ref_ring@[id as int] is Some
        &&& !self.tkn_ref_ring@[id as int].unwrap().reported
        &&& match self.tkn_ref_ring@[id as int].unwrap().tkn.buff_tkn.recv_buff {
            Some(b) => written_len <= b.spec_len(),
            None => written_len == 0,
        }
    }

    /// What retiring chain `id` did: the head descriptor carries the
    /// written length and both phase bits equal to the publish wrap,
    /// and the bookkeeping notes the report. Nothing else moves.
    pub open spec fn spec_marked_used(
        pre: DescriptorRing,
        post: DescriptorRing,
        id: u16,
        written_len: u32,
    ) -> bool {
        let e = pre.tkn_ref_ring@[id as int].unwrap();
        &&& post.tkn_ref_ring@ == pre.tkn_ref_ring@.update(
            id as int,
            Some(PinnedToken { reported: true, reported_len: written_len, ..e }),
        )
        &&& post.ring@ == pre.ring@.update(
            e.head_pos as int,
            Descriptor {
                address: pre.ring@[e.head_pos as int].address,
                len: written_len,
                buff_id: id,
                flags: spec_make_flags(0, e.wrap, e.wrap),
            },
        )
        &&& post.write_index == pre.write_index
        &&& post.capacity == pre.capacity
        &&& post.poll_index == pre.poll_index
        &&& post.wrap_count == pre.wrap_count
        &&& post.poll_wrap_count == pre.poll_wrap_count
        &&& post.order@ == pre.order@
        &&& post.abs_write@ == pre.abs_write@
        &&& post.abs_poll@ == pre.abs_poll@
    }

    /// The device's half of the protocol, modelled in place: retires
    /// the in-flight chain published under `buff_id`, writing back how
    /// many bytes it put into the receive side. Returns whether the
    /// chain was there to retire; an unknown, already retired or
    /// overlong report changes nothing.
    pub fn device_mark_used(&mut self, buff_id: u16, written_len: u32) -> (r: bool)
        requires
            old(self).wf(),
        ensures
            final(self).wf(),
            r == old(self).spec_device_accepts(buff_id, written_len),
            if r {
                Self::spec_marked_used(*old(self), *final(self), buff_id, written_len)
            } else {
                final(self).unchanged_from(*old(self))
            },
            forall|p: MemPool| old(self).pool_ok(p) ==> final(self).pool_ok(p),
    {
        let ghost pre = *self;
        let size = self.ring.len();
        if buff_id == 0 || buff_id as usize > size {
            return false;
        }
        let head_pos: u16;
        let wrap_b: bool;
        match &self.tkn_ref_ring[buff_id as usize] {
            None => {
                return false;
            },
            Some(e) => {
                if e.reported {
                    return false;
                }
                let len_ok = match &e.tkn.buff_tkn.recv_buff {
                    Some(b) => written_len as usize <= b.len(),
                    None => written_len == 0,
                };
                if !len_ok {
                    return false;
                }
                head_pos = e.head_pos;
                wrap_b = e.wrap;
            },
        }
        proof {
            assert(pre.tkn_ref_ring@[buff_id as int] is Some);
            assert(pre.order@.contains(buff_id));
        }
        let ghost wi = choose|w: int| 0 <= w < pre.order@.len() && pre.order@[w] == buff_id;
        proof {
            assert(pre.entry_wf(wi));
            assert(head_pos < size);
        }
        let old_addr = self.ring[head_pos as usize].address;
        self.ring[head_pos as usize] = Descriptor {
            address: old_addr,
            len: written_len,
            buff_id,
            flags: build_flags(0, wrap_b, wrap_b),
        };
        match &mut self.tkn_ref_ring[buff_id as usize] {
            Some(e) => {
                e.reported = true;
                e.reported_len = written_len;
            },
            None => (),
        }
        proof {
            pre.lemma_mark_preserves_wf(*self, buff_id, written_len, wi);
        }
        true
    }

    /// Retiring one chain in place leaves the ring well-formed, and
    /// any pool it was in step with stays in step.
    proof fn lemma_mark_preserves_wf(self, post: DescriptorRing, id: u16, written_len: u32, wi: int)
        requires
            self.wf(),
            self.spec_device_accepts(id, written_len),
            Self::spec_marked_used(self, post, id, written_len),
            0 <= wi < self.inflight_count(),
            self.order@[wi] == id,
        ensures
            post.wf(),
            forall|p: MemPool| self.pool_ok(p) ==> post.pool_ok(p),
    {
        let size = self.size();
        let m = self.inflight_count();
        let e = self.tkn_ref_ring@[id as int].unwrap();
        assert(post.inflight_count() == m);
        assert(self.entry_wf(wi));
        assert(self.entry(wi) == e);
        assert(e.head_pos < size);
        assert(post.entry(wi) == PinnedToken { reported: true, reported_len: written_len, ..e });
        assert forall|j: int| 0 <= j < m && j != wi implies post.entry(j) == self.entry(j) by {
            assert(self.order@[j] != id);
        }
        assert forall|j: int| 0 <= j < m implies post.entry_wf(j) by {
            assert(self.entry_wf(j));
            if j == wi {
                assert(post.ring@[e.head_pos as int] == Descriptor {
                    address: self.ring@[e.head_pos as int].address,
                    len: written_len,
                    buff_id: id,
                    flags: spec_make_flags(0, e.wrap, e.wrap),
                });
                lemma_flag_decomp(0, self.entry(wi).wrap, self.entry(wi).wrap);
            } else {
                assert(self.order@[j] != id);
                assert(post.entry(j) == self.entry(j));
                if j < wi {
                    self.lemma_head_distinct(j, wi);
                } else {
                    self.lemma_head_distinct(wi, j);
                }
                assert(e.head_pos == self.entry(wi).head_pos);
                assert(self.entry(j).head_pos != e.head_pos);
                assert(post.ring@[self.entry(j).head_pos as int] == self.ring@[self.entry(
                    j,
                ).head_pos as int]);
                assert(post.head_desc_ok(j));
            }
        }
        assert forall|x: int| 1 <= x <= size implies ((#[trigger] post.tkn_ref_ring@[x]) is Some
            <==> post.order@.contains(x as u16)) by {
            assert((self.tkn_ref_ring@[x] is Some) == (post.tkn_ref_ring@[x] is Some));
        }
        assert(post.chain_layout()) by {
            assert forall|i: int| 0 <= i < m - 1 implies (#[trigger] post.entry(i + 1)).abs_pos@
                == post.entry(i).abs_pos@ + post.entry(i).num_slots by {
                assert(self.entry(i + 1).abs_pos@ == self.entry(i).abs_pos@ + self.entry(
                    i,
                ).num_slots);
            }
            if m > 0 {
                assert(post.entry(0).abs_pos@ == self.entry(0).abs_pos@);
                assert(post.entry(m - 1).abs_pos@ == self.entry(m - 1).abs_pos@);
                assert(post.entry(m - 1).num_slots == self.entry(m - 1).num_slots);
            }
        }
        assert forall|p: MemPool| self.pool_ok(p) implies post.pool_ok(p) by {
            assert forall|i: int| 0 <= i < m implies post.entry_ids_ok(i, p) by {
                assert(self.entry_ids_ok(i, p));
                assert(post.entry(i).tkn.buff_tkn == self.entry(i).tkn.buff_tkn);
            }
            assert forall|i: int, j: int| 0 <= i < j < m implies seqs_disjoint(
                (#[trigger] post.entry(i)).tkn.buff_tkn.held_ids(),
                (#[trigger] post.entry(j)).tkn.buff_tkn.held_ids(),
            ) by {
                assert(seqs_disjoint(
                    self.entry(i).tkn.buff_tkn.held_ids(),
                    self.entry(j).tkn.buff_tkn.held_ids(),
                ));
                assert(post.entry(i).tkn.buff_tkn == self.entry(i).tkn.buff_tkn);
                assert(post.entry(j).tkn.buff_tkn == self.entry(j).tkn.buff_tkn);
            }
        }
    }

    /// What marking chain `id` dropped did: only its bookkeeping's
    /// dropped flag changed.
    pub open spec fn spec_marked_dropped(pre: DescriptorRing, post: DescriptorRing, id: u16) -> bool {
        &&& post.tkn_ref_ring@ == pre.tkn_ref_ring@.update(
            id as int,
            Some(PinnedToken { dropped: true, ..pre.tkn_ref_ring@[id as int].unwrap() }),
        )
        &&& post.ring@ == pre.ring@
        &&& post.order@ == pre.order@
        &&& post.capacity == pre.capacity
        &&& post.write_index == pre.write_index
        &&& post.poll_index == pre.poll_index
        &&& post.wrap_count == pre.wrap_count
        &&& post.poll_wrap_count == pre.poll_wrap_count
        &&& post.abs_write@ == pre.abs_write@
        &&& post.abs_poll@ == pre.abs_poll@
    }

    /// Marks the in-flight chain under `buff_id` as dropped by its
    /// caller: when it retires, its identifiers go back to the pool
    /// and nothing is delivered. Returns whether such a chain was
    /// tracked.
    pub fn mark_dropped(&mut self, buff_id: u16) -> (r: bool)
        requires
            old(self).wf(),
        ensures
            final(self).wf(),
            r == (1 <= buff_id <= old(self).size() && old(self).tkn_ref_ring@[buff_id as int]
                is Some),
            if r {
                Self::spec_marked_dropped(*old(self), *final(self), buff_id)
            } else {
                final(self).unchanged_from(*old(self))
            },
            forall|p: MemPool| old(self).pool_ok(p) ==> final(self).pool_ok(p),
    {
        let ghost pre = *self;
        let size = self.ring.len();
        if buff_id == 0 || buff_id as usize > size {
            return false;
        }
        let tracked_here: bool = match &self.tkn_ref_ring[buff_id as usize] {
            Some(_) => true,
            None => false,
        };
        if !tracked_here {
            return false;
        }
        match &mut self.tkn_ref_ring[buff_id as usize] {
            Some(e) => {
                e.dropped = true;
            },
            None => (),
        }
        proof {
            assert(pre.order@.contains(buff_id));
            let wi = choose|w: int| 0 <= w < pre.inflight_count() && pre.order@[w] == buff_id;
            let m = pre.inflight_count();
            assert forall|j: int| 0 <= j < m && j != wi implies self.entry(j) == pre.entry(j) by {
                assert(pre.order@[j] != buff_id);
            }
            assert forall|j: int| 0 <= j < m implies self.entry_wf(j) by {
                assert(pre.entry_wf(j));
            }
            assert forall|x: int| 1 <= x <= size implies ((#[trigger] self.tkn_ref_ring@[x])
                is Some <==> self.order@.contains(x as u16)) by {
                assert((pre.tkn_ref_ring@[x] is Some) == (self.tkn_ref_ring@[x] is Some));
            }
            assert(self.chain_layout()) by {
                assert forall|i: int| 0 <= i < m - 1 implies (#[trigger] self.entry(i + 1)).abs_pos@
                    == self.entry(i).abs_pos@ + self.entry(i).num_slots by {
                    assert(pre.entry(i + 1).abs_pos@ == pre.entry(i).abs_pos@ + pre.entry(
                        i,
                    ).num_slots);
                }
                if m > 0 {
                    assert(self.entry(0).abs_pos@ == pre.entry(0).abs_pos@);
                    assert(self.entry(m - 1).abs_pos@ == pre.entry(m - 1).abs_pos@);
                    assert(self.entry(m - 1).num_slots == pre.entry(m - 1).num_slots);
                }
            }
            assert forall|p: MemPool| pre.pool_ok(p) implies self.pool_ok(p) by {
                assert forall|i: int| 0 <= i < m implies self.entry_ids_ok(i, p) by {
                    assert(pre.entry_ids_ok(i, p));
                    assert(self.entry(i).tkn.buff_tkn == pre.entry(i).tkn.buff_tkn);
                }
                assert forall|i: int, j: int| 0 <= i < j < m implies seqs_disjoint(
                    (#[trigger] self.entry(i)).tkn.buff_tkn.held_ids(),
                    (#[trigger] self.entry(j)).tkn.buff_tkn.held_ids(),
                ) by {
                    assert(seqs_disjoint(
                        pre.entry(i).tkn.buff_tkn.held_ids(),
                        pre.entry(j).tkn.buff_tkn.held_ids(),
                    ));
                    assert(self.entry(i).tkn.buff_tkn == pre.entry(i).tkn.buff_tkn);
                    assert(self.entry(j).tkn.buff_tkn == pre.entry(j).tkn.buff_tkn);
                }
            }
        }
        true
    }

    /// Where the drain that starts at queue position `i` stops: the
    /// position of the first chain the device has not retired yet.
    pub open spec fn drained_count(self, i: int) -> int
        decreases self.inflight_count() - i,
        when 0 <= i <= self.inflight_count()
    {
        if i >= self.inflight_count() || !self.entry(i).reported {
            i
        } else {
            self.drained_count(i + 1)
        }
    }

    /// The buffer token a retired transfer hands back: the receive
    /// side's logical length is truncated to what the device wrote.
    pub open spec fn spec_completed_token(e: PinnedToken) -> BufferToken {
        e.tkn.buff_tkn.spec_with_recv_len(e.reported_len as usize)
    }

    /// The buffer tokens one poll delivers to the caller, oldest
    /// first, starting at queue position `i`: completions of retired,
    /// not dropped transfers that await delivery.
    pub open spec fn delivered_from(self, i: int) -> Seq<BufferToken>
        decreases self.inflight_count() - i,
        when 0 <= i <= self.inflight_count()
    {
        if i >= self.inflight_count() || !self.entry(i).reported {
            Seq::empty()
        } else {
            let e = self.entry(i);
            (if !e.dropped && e.tkn.await_queue {
                seq![Self::spec_completed_token(e)]
            } else {
                Seq::empty()
            }) + self.delivered_from(i + 1)
        }
    }

    /// The buffer tokens one poll only marks finished, for later
    /// collection: completions of retired, not dropped transfers
    /// without a delivery endpoint.
    pub open spec fn finished_from(self, i: int) -> Seq<BufferToken>
        decreases self.inflight_count() - i,
        when 0 <= i <= self.inflight_count()
    {
        if i >= self.inflight_count() || !self.entry(i).reported {
            Seq::empty()
        } else {
            let e = self.entry(i);
            (if !e.dropped && !e.tkn.await_queue {
                seq![Self::spec_completed_token(e)]
            } else {
                Seq::empty()
            }) + self.finished_from(i + 1)
        }
    }

    /// The identifiers one poll gives back to the pool: everything
    /// held by retired transfers whose caller dropped them.
    pub open spec fn returned_ids_from(self, i: int) -> Seq<u16>
        decreases self.inflight_count() - i,
        when 0 <= i <= self.inflight_count()
    {
        if i >= self.inflight_count() || !self.entry(i).reported {
            Seq::empty()
        } else {
            let e = self.entry(i);
            (if e.dropped {
                e.tkn.buff_tkn.held_ids()
            } else {
                Seq::empty()
            }) + self.returned_ids_from(i + 1)
        }
    }

    /// A drain that processed the retired prefix up to `i` and stopped
    /// there stopped exactly where `drained_count` says.
    proof fn lemma_drained_count_from(self, start: int, i: int)
        requires
            0 <= start <= i <= self.inflight_count(),
            forall|j: int| start <= j < i ==> (#[trigger] self.entry(j)).reported,
            i == self.inflight_count() || !self.entry(i).reported,
        ensures
            self.drained_count(start) == i,
        decreases i - start,
    {
        if start < i {
            self.lemma_drained_count_from(start + 1, i);
        }
    }

    /// Removing the oldest in-flight chain leaves the ring
    /// well-formed, with the remaining chains moved up one place.
    proof fn lemma_pop_restores_wf(a: DescriptorRing, b: DescriptorRing)
        requires
            a.wf(),
            a.inflight_count() > 0,
            b.order@ == a.order@.skip(1),
            b.tkn_ref_ring@ == a.tkn_ref_ring@.update(a.order@[0] as int, None),
            b.ring@ == a.ring@,
            b.capacity == a.capacity + a.entry(0).num_slots,
            b.abs_poll@ == a.abs_poll@ + a.entry(0).num_slots,
            b.abs_write@ == a.abs_write@,
            b.write_index == a.write_index,
            b.wrap_count == a.wrap_count,
            b.poll_index as int == (a.abs_poll@ + a.entry(0).num_slots) as int % a.size(),
            b.poll_wrap_count.0 == spec_wrap_at(
                (a.abs_poll@ + a.entry(0).num_slots) as nat,
                a.size(),
            ),
        ensures
            b.wf(),
            forall|j: int|
                0 <= j < b.inflight_count() ==> #[trigger] b.entry(j) == a.entry(j + 1),
    {
        let size = a.size();
        let m = a.inflight_count();
        let id0 = a.order@[0];
        let k = a.entry(0).num_slots;
        assert(a.entry_wf(0));
        a.lemma_entry_abs_upper(0);
        assert(b.inflight_count() == m - 1);
        assert forall|j: int| 0 <= j < m - 1 implies #[trigger] b.entry(j) == a.entry(j + 1) by {
            assert(b.order@[j] == a.order@[j + 1]);
            assert(a.order@[j + 1] != id0);
        }
        assert(b.order@.no_duplicates()) by {
            assert forall|x: int, y: int|
                0 <= x < m - 1 && 0 <= y < m - 1 && x != y implies b.order@[x] != b.order@[y] by {
                assert(a.order@[x + 1] != a.order@[y + 1]);
            }
        }
        assert forall|x: int| 1 <= x <= size implies ((#[trigger] b.tkn_ref_ring@[x]) is Some
            <==> b.order@.contains(x as u16)) by {
            if x == id0 {
                if b.order@.contains(x as u16) {
                    let w = choose|w: int| 0 <= w < m - 1 && b.order@[w] == x as u16;
                    assert(a.order@[w + 1] == id0);
                    assert(a.order@[0] == id0);
                }
            } else {
                if a.order@.contains(x as u16) && a.tkn_ref_ring@[x] is Some {
                    let w = choose|w: int| 0 <= w < m && a.order@[w] == x as u16;
                    assert(w != 0);
                    assert(b.order@[w - 1] == x as u16);
                }
                if b.order@.contains(x as u16) {
                    let w = choose|w: int| 0 <= w < m - 1 && b.order@[w] == x as u16;
                    assert(a.order@[w + 1] == x as u16);
                }
            }
        }
        assert forall|j: int| 0 <= j < m - 1 implies b.entry_wf(j) by {
            assert(a.entry_wf(j + 1));
            assert(b.entry(j) == a.entry(j + 1));
        }
        assert(b.chain_layout()) by {
            if m - 1 > 0 {
                let one: int = 1;
                assert(a.entry(0 + one).abs_pos@ == a.entry(0).abs_pos@ + a.entry(0).num_slots);
                assert(b.entry(0).abs_pos@ == b.abs_poll@);
                assert(a.entry((m - 2) + 1).abs_pos@ == a.entry(m - 2).abs_pos@ + a.entry(
                    m - 2,
                ).num_slots);
                assert(b.entry(m - 2) == a.entry(m - 1));
            }
            assert forall|j: int| 0 <= j < m - 1 - 1 implies (#[trigger] b.entry(j + 1)).abs_pos@
                == b.entry(j).abs_pos@ + b.entry(j).num_slots by {
                assert(a.entry((j + 1) + 1).abs_pos@ == a.entry(j + 1).abs_pos@ + a.entry(
                    j + 1,
                ).num_slots);
            }
        }
    }

    /// Drains completions from the poll cursor: for every chain the
    /// device has retired, in ring order, restores its slots to the
    /// ring's capacity, unpins the token, and hands the buffer token
    /// on — into the returned vector when the transfer awaits
    /// delivery, onto `finished` when it does not, and back into the
    /// pool's free identifiers when the caller dropped it early.
    /// Stops at the first chain still owned by the device.
    #[verifier::loop_isolation(false)]
    #[verifier::rlimit(100)]
    pub fn poll(&mut self, pool: &mut MemPool, finished: &mut Vec<BufferToken>) -> (r: Vec<
        BufferToken,
    >)
        requires
            old(self).wf(),
            old(self).pool_ok(*old(pool)),
        ensures
            final(self).wf(),
            final(self).pool_ok(*final(pool)),
            final(pool).wf(),
            final(pool).size == old(pool).size,
            final(pool).arena_used == old(pool).arena_used,
            ({
                let p = old(self).drained_count(0);
                &&& final(self).order@ == old(self).order@.skip(p)
                &&& final(self).ring@ == old(self).ring@
                &&& final(self).abs_write@ == old(self).abs_write@
                &&& final(self).write_index == old(self).write_index
                &&& final(self).wrap_count == old(self).wrap_count
                &&& forall|x: int|
                    0 <= x < old(self).tkn_ref_ring@.len()
                        ==> #[trigger] final(self).tkn_ref_ring@[x] == (if old(
                        self,
                    ).order@.take(p).contains(x as u16) {
                        None
                    } else {
                        old(self).tkn_ref_ring@[x]
                    })
                &&& r@ == old(self).delivered_from(0)
                &&& final(finished)@ == old(finished)@ + old(self).finished_from(0)
                &&& final(pool).ids() == old(pool).ids() + old(self).returned_ids_from(0)
            }),
    {
        let ghost pre = *self;
        let mut out: Vec<BufferToken> = Vec::new();
        let ghost mut i: int = 0;
        let size = self.ring.len();
        proof {
            assert(pre.order@.skip(0) =~= pre.order@);
            assert(pre.order@.take(0) =~= Seq::<u16>::empty());
            assert(out@ + pre.delivered_from(0) =~= pre.delivered_from(0));
            assert(finished@ + pre.finished_from(0) =~= old(finished)@ + pre.finished_from(0));
            assert(pool.ids() + pre.returned_ids_from(0) =~= old(pool).ids()
                + pre.returned_ids_from(0));
        }
        loop
            invariant
                self.wf(),
                self.pool_ok(*pool),
                pool.size == old(pool).size,
                pool.arena_used == old(pool).arena_used,
                self.ring@.len() == size,
                0 <= i <= pre.inflight_count(),
                forall|j: int| 0 <= j < i ==> (#[trigger] pre.entry(j)).reported,
                self.order@ == pre.order@.skip(i),
                self.ring@ == pre.ring@,
                self.abs_write@ == pre.abs_write@,
                self.write_index == pre.write_index,
                self.wrap_count == pre.wrap_count,
                self.tkn_ref_ring@.len() == pre.tkn_ref_ring@.len(),
                forall|x: int|
                    0 <= x < pre.tkn_ref_ring@.len() ==> #[trigger] self.tkn_ref_ring@[x] == (
                    if pre.order@.take(i).contains(x as u16) {
                        None
                    } else {
                        pre.tkn_ref_ring@[x]
                    }),
                forall|j: int|
                    0 <= j < self.inflight_count() ==> #[trigger] self.entry(j) == pre.entry(i + j),
                pre.delivered_from(0) == out@ + pre.delivered_from(i),
                old(finished)@ + pre.finished_from(0) == finished@ + pre.finished_from(i),
                old(pool).ids() + pre.returned_ids_from(0) == pool.ids() + pre.returned_ids_from(
                    i,
                ),
            decreases self.order@.len(),
        {
            if self.capacity as usize == size {
                proof {
                    if self.inflight_count() != 0 {
                        assert(self.entry_wf(0));
                        self.lemma_entry_abs_upper(0);
                        assert(false);
                    }
                    assert(i == pre.inflight_count());
                }
                break;
            }
            proof {
                if self.inflight_count() == 0 {
                    assert(self.abs_write@ == self.abs_poll@);
                    assert(false);
                }
                assert(self.entry_wf(0));
                self.lemma_entry_abs_upper(0);
                assert(self.head_desc_ok(0));
                assert(self.entry(0).head_pos == self.poll_index);
                assert(self.entry(0).wrap == self.poll_wrap_count.0);
            }
            let head = self.ring[self.poll_index as usize];
            if !head.is_used(self.poll_wrap_count.0) {
                proof {
                    assert(!self.entry(0).reported);
                    assert(!pre.entry(i).reported);
                }
                break;
            }
            let id = head.buff_id;
            let ghost it = *self;
            let ghost pool0 = *pool;
            proof {
                assert(it.entry(0).reported);
                assert(pre.entry(i).reported);
                assert(id == it.order@[0]);
                assert(1 <= id <= size);
            }
            let entry_opt = self.tkn_ref_ring[id as usize].take();
            let entry = entry_opt.unwrap();
            let k = entry.num_slots;
            proof {
                assert(entry == it.entry(0));
                assert(k <= size - it.capacity);
            }
            self.capacity = self.capacity + k;
            let next = self.poll_index as usize + k as usize;
            if next >= size {
                self.poll_index = (next - size) as u16;
                self.poll_wrap_count.wrap();
            } else {
                self.poll_index = next as u16;
            }
            proof {
                self.order@ = it.order@.skip(1);
                self.abs_poll@ = it.abs_poll@ + k as nat;
                lemma_wrap_step(it.abs_poll@, k as nat, size as int);
                vstd::arithmetic::div_mod::lemma_small_mod(it.poll_index as nat, size as nat);
                Self::lemma_pop_restores_wf(it, *self);
                assert forall|jj: int| 0 <= jj < self.inflight_count() implies self.entry_ids_ok(
                    jj,
                    *pool,
                ) by {
                    assert(it.entry_ids_ok(jj + 1, *pool));
                    assert(self.entry(jj) == it.entry(jj + 1));
                }
                assert forall|ii: int, jj: int|
                    0 <= ii < jj < self.inflight_count() implies seqs_disjoint(
                    (#[trigger] self.entry(ii)).tkn.buff_tkn.held_ids(),
                    (#[trigger] self.entry(jj)).tkn.buff_tkn.held_ids(),
                ) by {
                    assert(seqs_disjoint(
                        it.entry(ii + 1).tkn.buff_tkn.held_ids(),
                        it.entry(jj + 1).tkn.buff_tkn.held_ids(),
                    ));
                    assert(self.entry(ii) == it.entry(ii + 1));
                    assert(self.entry(jj) == it.entry(jj + 1));
                }
            }
            let ghost held0 = entry.tkn.buff_tkn.held_ids();
            if entry.dropped {
                proof {
                    assert(it.entry_ids_ok(0, *pool));
                }
                ret_token_ids(pool, &entry.tkn.buff_tkn);
                proof {
                    assert forall|jj: int|
                        0 <= jj < self.inflight_count() implies self.entry_ids_ok(jj, *pool) by {
                        assert(it.entry_ids_ok(jj + 1, pool0));
                        assert(self.entry(jj) == it.entry(jj + 1));
                        assert(seqs_disjoint(held0, it.entry(jj + 1).tkn.buff_tkn.held_ids()));
                        let h = self.entry(jj).tkn.buff_tkn.held_ids();
                        assert forall|x: int| 0 <= x < h.len() implies !pool.ids().contains(
                            #[trigger] h[x],
                        ) by {
                            assert(!pool0.ids().contains(h[x]));
                            assert(h.contains(h[x]));
                            assert(!held0.contains(h[x]));
                            lemma_add_contains(pool0.ids(), held0, h[x]);
                        }
                    }
                }
            } else {
                let awaited = entry.tkn.await_queue;
                let rl = entry.reported_len;
                let mut bt = entry.tkn.buff_tkn;
                bt.restr_size(rl as usize);
                proof {
                    assert(bt == Self::spec_completed_token(it.entry(0)));
                }
                if awaited {
                    out.push(bt);
                } else {
                    finished.push(bt);
                }
            }
            proof {
                let e = it.entry(0);
                assert(pre.entry(i) == e);
                // One step of each drain bookkeeping sequence.
                assert(pre.delivered_from(i) == (if !e.dropped && e.tkn.await_queue {
                    seq![Self::spec_completed_token(e)]
                } else {
                    Seq::empty()
                }) + pre.delivered_from(i + 1));
                assert(pre.finished_from(i) == (if !e.dropped && !e.tkn.await_queue {
                    seq![Self::spec_completed_token(e)]
                } else {
                    Seq::empty()
                }) + pre.finished_from(i + 1));
                assert(pre.returned_ids_from(i) == (if e.dropped {
                    e.tkn.buff_tkn.held_ids()
                } else {
                    Seq::empty()
                }) + pre.returned_ids_from(i + 1));
                assert(pre.delivered_from(0) =~= out@ + pre.delivered_from(i + 1));
                assert(old(finished)@ + pre.finished_from(0) =~= finished@ + pre.finished_from(
                    i + 1,
                ));
                assert(old(pool).ids() + pre.returned_ids_from(0) =~= pool.ids()
                    + pre.returned_ids_from(i + 1));
                // The processed prefix grows by the chain just drained.
                assert forall|x: int|
                    0 <= x < pre.tkn_ref_ring@.len() implies #[trigger] self.tkn_ref_ring@[x] == (
                if pre.order@.take(i + 1).contains(x as u16) {
                    None
                } else {
                    pre.tkn_ref_ring@[x]
                }) by {
                    assert(pre.order@[i] == id);
                    if x == id {
                        assert(pre.order@.take(i + 1)[i] == id);
                        assert(pre.order@.take(i + 1).contains(id));
                    } else {
                        let s0 = pre.order@.take(i);
                        let s1 = pre.order@.take(i + 1);
                        if s0.contains(x as u16) {
                            let w = choose|w: int| 0 <= w < s0.len() && s0[w] == x as u16;
                            assert(s1[w] == x as u16);
                        }
                        if s1.contains(x as u16) {
                            let w = choose|w: int| 0 <= w < s1.len() && s1[w] == x as u16;
                            assert(w < i);
                            assert(s0[w] == x as u16);
                        }
                    }
                }
                assert(self.order@ =~= pre.order@.skip(i + 1));
                i = i + 1;
            }
        }
        proof {
            pre.lemma_drained_count_from(0, i);
            assert(out@ =~= pre.delivered_from(0));
            assert(finished@ =~= old(finished)@ + pre.finished_from(0));
            assert(pool.ids() =~= old(pool).ids() + pre.returned_ids_from(0));
        }
        out
    }

    /// What a successful `push` of `tkn` did: the chain stands in the
    /// ring slots from the old write cursor, the token is pinned under
    /// `id`, and the cursors and capacity moved by the chain length.
    pub open spec fn spec_pushed(
        pre: DescriptorRing,
        post: DescriptorRing,
        tkn: TransferToken,
        id: u16,
    ) -> bool {
        let k = tkn.buff_tkn.ring_len();
        let size = pre.size();
        let w = pre.wrap_count.0;
        let e = post.tkn_ref_ring@[id as int].unwrap();
        &&& id == spec_head_id(tkn.buff_tkn)
        &&& k <= pre.capacity
        &&& post.order@ == pre.order@.push(id)
        &&& post.tkn_ref_ring@.len() == pre.tkn_ref_ring@.len()
        &&& post.tkn_ref_ring@[id as int] is Some
        &&& e.tkn.buff_tkn == tkn.buff_tkn
        &&& e.tkn.await_queue == tkn.await_queue
        &&& e.tkn.state is Processing
        &&& e.head_pos == pre.write_index
        &&& e.num_slots == k
        &&& e.wrap == w
        &&& !e.reported
        &&& !e.dropped
        &&& e.abs_pos@ == pre.abs_write@
        &&& forall|x: int|
            0 <= x < pre.tkn_ref_ring@.len() && x != id ==> post.tkn_ref_ring@[x]
                == pre.tkn_ref_ring@[x]
        &&& post.capacity == pre.capacity - k
        &&& post.abs_write@ == pre.abs_write@ + k
        &&& post.abs_poll@ == pre.abs_poll@
        &&& post.poll_index == pre.poll_index
        &&& post.poll_wrap_count == pre.poll_wrap_count
        &&& post.write_index as int == (pre.write_index + k) % size
        &&& post.wrap_count.0 == (if pre.write_index + k >= size {
            !pre.wrap_count.0
        } else {
            pre.wrap_count.0
        })
        &&& post.ring@.len() == size
        &&& forall|j: int|
            0 <= j < k ==> post.ring@[#[trigger] slot_at(pre.write_index as int, j, size)]
                == spec_chain_desc(tkn.buff_tkn, j, id, w)
        &&& forall|off: int|
            k <= off < size ==> post.ring@[#[trigger] slot_at(pre.write_index as int, off, size)]
                == pre.ring@[slot_at(pre.write_index as int, off, size)]
    }

    /// Publishes a token's chain: reserves `k` logical slots at the
    /// write cursor, writes the tail descriptors first and completes
    /// the head last, pins the token under the head's buffer
    /// identifier, and moves capacity and the write cursor. Fails with
    /// `NoDescrAvail`, changing nothing, when fewer than `k` slots are
    /// free.
    #[verifier::loop_isolation(false)]
    #[verifier::rlimit(60)]
    pub fn push(&mut self, tkn: TransferToken) -> (r: Result<u16, VirtqError>)
        requires
            old(self).wf(),
            tkn.buff_tkn.wf(),
            tkn.buff_tkn.fully_identified(),
            tkn.state is Ready,
            1 <= spec_head_id(tkn.buff_tkn) <= old(self).size(),
            old(self).tkn_ref_ring@[spec_head_id(tkn.buff_tkn) as int] is None,
        ensures
            final(self).wf(),
            match r {
                Ok(id) => Self::spec_pushed(*old(self), *final(self), tkn, id),
                Err(VirtqError::NoDescrAvail) => {
                    &&& tkn.buff_tkn.ring_len() > old(self).capacity
                    &&& final(self).unchanged_from(*old(self))
                },
                Err(_) => false,
            },
    {
        let ghost pre = *self;
        let size = self.ring.len();
        let bt = &tkn.buff_tkn;
        let s: usize = match &bt.send_buff {
            Some(b) => b.as_slice().len(),
            None => 0,
        };
        let rc: usize = match &bt.recv_buff {
            Some(b) => b.as_slice().len(),
            None => 0,
        };
        let indirect: bool = match &bt.send_buff {
            Some(b) => b.get_ctrl_desc().is_some(),
            None => match &bt.recv_buff {
                Some(b) => b.get_ctrl_desc().is_some(),
                None => false,
            },
        };
        proof {
            assert(indirect == bt.is_indirect());
        }
        let k: usize;
        if indirect {
            if self.capacity < 1 {
                return Err(VirtqError::NoDescrAvail);
            }
            k = 1;
        } else {
            if s > self.capacity as usize {
                return Err(VirtqError::NoDescrAvail);
            }
            if rc > self.capacity as usize - s {
                return Err(VirtqError::NoDescrAvail);
            }
            k = s + rc;
        }
        proof {
            assert(k == bt.ring_len());
            assert(1 <= k <= pre.capacity);
        }
        // Build the chain image first; the ring write below plays the
        // role of publishing it, head flags last.
        let w = self.wrap_count.0;
        let head_id: u16;
        let mut chain: Vec<Descriptor> = Vec::new();
        if indirect {
            let ctrl: &MemDescr = match &bt.send_buff {
                Some(b) => b.get_ctrl_desc().unwrap(),
                None => bt.recv_buff.as_ref().unwrap().get_ctrl_desc().unwrap(),
            };
            proof {
                assert(*ctrl == spec_ctrl_of(*bt));
            }
            head_id = ctrl.id;
            chain.push(
                Descriptor::new(
                    ctrl.addr,
                    ctrl.len as u32,
                    head_id,
                    build_flags(VIRTQ_DESC_F_INDIRECT, w, !w),
                ),
            );
            proof {
                assert(chain@[0] == spec_chain_desc(*bt, 0, head_id, w));
            }
        } else {
            head_id = if s > 0 {
                bt.send_buff.as_ref().unwrap().as_slice()[0].id
            } else {
                bt.recv_buff.as_ref().unwrap().as_slice()[0].id
            };
            match &bt.send_buff {
                Some(b) => {
                    let ds = b.as_slice();
                    let mut i: usize = 0;
                    while i < ds.len()
                        invariant
                            chain@.len() == i,
                            i <= ds.len(),
                            forall|j: int|
                                0 <= j < i ==> #[trigger] chain@[j] == spec_chain_desc(
                                    tkn.buff_tkn,
                                    j,
                                    head_id,
                                    w,
                                ),
                        decreases ds.len() - i,
                    {
                        let base: u16 = if i + 1 < k {
                            VIRTQ_DESC_F_NEXT
                        } else {
                            0
                        };
                        chain.push(
                            Descriptor::new(ds[i].addr, ds[i].len as u32, head_id, build_flags(base, w, !w)),
                        );
                        i = i + 1;
                    }
                },
                None => (),
            }
            match &bt.recv_buff {
                Some(b) => {
                    let ds = b.as_slice();
                    let mut i: usize = 0;
                    while i < ds.len()
                        invariant
                            chain@.len() == s + i,
                            i <= ds.len(),
                            forall|j: int|
                                0 <= j < s + i ==> #[trigger] chain@[j] == spec_chain_desc(
                                    tkn.buff_tkn,
                                    j,
                                    head_id,
                                    w,
                                ),
                        decreases ds.len() - i,
                    {
                        let base: u16 = if s + i + 1 < k {
                            VIRTQ_DESC_F_WRITE + VIRTQ_DESC_F_NEXT
                        } else {
                            VIRTQ_DESC_F_WRITE
                        };
                        chain.push(
                            Descriptor::new(ds[i].addr, ds[i].len as u32, head_id, build_flags(base, w, !w)),
                        );
                        i = i + 1;
                    }
                },
                None => (),
            }
        }
        proof {
            assert(chain@.len() == k);
            assert(head_id == spec_head_id(tkn.buff_tkn));
        }
        // Write the chain into the ring window at the write cursor.
        let start = self.write_index as usize;
        let mut j: usize = 0;
        while j < k
            invariant
                j <= k,
                self.ring@.len() == size,
                self.tkn_ref_ring@ == pre.tkn_ref_ring@,
                self.write_index == pre.write_index,
                self.capacity == pre.capacity,
                self.poll_index == pre.poll_index,
                self.wrap_count == pre.wrap_count,
                self.poll_wrap_count == pre.poll_wrap_count,
                self.order@ == pre.order@,
                self.abs_write@ == pre.abs_write@,
                self.abs_poll@ == pre.abs_poll@,
                forall|jj: int|
                    0 <= jj < j ==> self.ring@[#[trigger] slot_at(start as int, jj, size as int)]
                        == chain@[jj],
                forall|off: int|
                    j <= off < size ==> self.ring@[#[trigger] slot_at(
                        start as int,
                        off,
                        size as int,
                    )] == pre.ring@[slot_at(start as int, off, size as int)],
            decreases k - j,
        {
            let pos = (start + j) % size;
            self.ring[pos] = chain[j];
            proof {
                assert(pos as int == slot_at(start as int, j as int, size as int));
                assert forall|jj: int| 0 <= jj < j + 1 implies self.ring@[#[trigger] slot_at(
                    start as int,
                    jj,
                    size as int,
                )] == chain@[jj] by {
                    if jj < j {
                        lemma_mod_distinct(start + jj, start + j, size as int);
                    }
                }
                assert forall|off: int| j + 1 <= off < size implies self.ring@[#[trigger] slot_at(
                    start as int,
                    off,
                    size as int,
                )] == pre.ring@[slot_at(start as int, off, size as int)] by {
                    lemma_mod_distinct(start + j, start + off, size as int);
                }
            }
            j = j + 1;
        }
        // Pin the token and move the write cursor.
        self.tkn_ref_ring[head_id as usize] = Some(
            PinnedToken {
                tkn: TransferToken {
                    state: TransferState::Processing,
                    buff_tkn: tkn.buff_tkn,
                    await_queue: tkn.await_queue,
                },
                head_pos: self.write_index,
                num_slots: k as u16,
                wrap: w,
                reported: false,
                reported_len: 0,
                dropped: false,
                abs_pos: Ghost(pre.abs_write@),
            },
        );
        self.capacity = self.capacity - k as u16;
        let next = start + k;
        if next >= size {
            self.write_index = (next - size) as u16;
            self.wrap_count.wrap();
        } else {
            self.write_index = next as u16;
        }
        proof {
            self.order@ = pre.order@.push(head_id);
            self.abs_write@ = pre.abs_write@ + k as nat;
            lemma_wrap_step(pre.abs_write@, k as nat, size as int);
            vstd::arithmetic::div_mod::lemma_small_mod(pre.write_index as nat, size as nat);
            lemma_wrap_step(pre.write_index as nat, k as nat, size as int);
            self.lemma_push_restores_wf(pre, tkn, head_id);
        }
        Ok(head_id)
    }

    /// After `push` has written the chain, pinned the token and moved
    /// the cursors, the ring is well-formed again.
    proof fn lemma_push_restores_wf(self, pre: DescriptorRing, tkn: TransferToken, id: u16)
        requires
            pre.wf(),
            tkn.buff_tkn.wf(),
            tkn.buff_tkn.fully_identified(),
            1 <= id <= pre.size(),
            id == spec_head_id(tkn.buff_tkn),
            pre.tkn_ref_ring@[id as int] is None,
            1 <= tkn.buff_tkn.ring_len() <= pre.capacity,
            Self::spec_pushed(pre, self, tkn, id),
        ensures
            self.wf(),
    {
        let k = tkn.buff_tkn.ring_len();
        let size = pre.size();
        let m = pre.inflight_count();
        lemma_wrap_step(pre.abs_write@, k as nat, size);
        vstd::arithmetic::div_mod::lemma_small_mod(pre.write_index as nat, size as nat);
        lemma_wrap_step(pre.write_index as nat, k as nat, size);
        assert(self.write_index as int == self.abs_write@ as int % size);
        assert(self.wrap_count.0 == spec_wrap_at(self.abs_write@, size));
        assert(pre.tkn_ref_ring@[id as int] is None);
        assert(!pre.order@.contains(id));
        // The new entry seen through the new order.
        assert(self.order@[m] == id);
        assert(self.entry(m) == self.tkn_ref_ring@[id as int].unwrap());
        // Old entries are untouched: their identifiers differ from id.
        assert forall|i: int| 0 <= i < m implies self.entry(i) == pre.entry(i) && self.order@[i]
            == pre.order@[i] by {
            assert(pre.order@.contains(pre.order@[i]));
        }
        // Identifier bookkeeping.
        assert(self.order@.no_duplicates()) by {
            assert forall|a: int, b: int|
                0 <= a < self.order@.len() && 0 <= b < self.order@.len() && a
                != b implies self.order@[a] != self.order@[b] by {
                if a < m && b < m {
                    assert(pre.order@[a] != pre.order@[b]);
                } else if a == m {
                    if self.order@[a] == self.order@[b] {
                        assert(pre.order@.contains(id)) by {
                            assert(pre.order@[b] == id);
                        }
                    }
                } else if b == m {
                    if self.order@[a] == self.order@[b] {
                        assert(pre.order@.contains(id)) by {
                            assert(pre.order@[a] == id);
                        }
                    }
                }
            }
        }
        assert forall|x: int| 1 <= x <= size implies ((#[trigger] self.tkn_ref_ring@[x]) is Some
            <==> self.order@.contains(x as u16)) by {
            if x == id {
                assert(self.order@[m] == id);
            } else {
                if pre.order@.contains(x as u16) {
                    let w = choose|w: int| 0 <= w < m && pre.order@[w] == x as u16;
                    assert(self.order@[w] == x as u16);
                }
                if self.order@.contains(x as u16) {
                    let w = choose|w: int| 0 <= w < m + 1 && self.order@[w] == x as u16;
                    assert(w < m);
                    assert(pre.order@[w] == x as u16);
                }
            }
        }
        // The written window covers fresh slots only: every old chain
        // ends at or before the old write cursor.
        assert forall|i: int| 0 <= i < m implies self.entry_wf(i) by {
            assert(pre.entry_wf(i));
            pre.lemma_entry_abs_lower(i);
            pre.lemma_entry_abs_upper(i);
            let e = pre.entry(i);
            let off = e.abs_pos@ as int + size - pre.abs_write@ as int;
            assert(k <= off < size) by {
                assert(e.abs_pos@ + e.num_slots <= pre.abs_write@);
                assert(pre.abs_write@ - pre.abs_poll@ == size - pre.capacity);
            }
            assert(slot_at(pre.write_index as int, off, size) == e.head_pos as int) by {
                vstd::arithmetic::div_mod::lemma_add_mod_noop(
                    pre.abs_write@ as int,
                    off,
                    size,
                );
                assert(pre.abs_write@ as int % size == pre.write_index as int);
                lemma_mod_add_ring(e.abs_pos@ as int, size);
                assert((pre.abs_write@ as int + off) % size == (e.abs_pos@ as int + size) % size);
                assert(e.abs_pos@ as int % size == e.head_pos as int);
                vstd::arithmetic::div_mod::lemma_add_mod_noop(
                    pre.write_index as int,
                    off,
                    size,
                );
                assert((pre.write_index as int % size) == pre.write_index as int) by {
                    vstd::arithmetic::div_mod::lemma_small_mod(
                        pre.write_index as nat,
                        size as nat,
                    );
                }
            }
            assert(self.ring@[e.head_pos as int] == pre.ring@[e.head_pos as int]);
            assert(pre.entry_wf(i));
            assert(self.head_desc_ok(i));
        }
        // The new entry is well-formed.
        assert(self.entry_wf(m)) by {
            let e = self.entry(m);
            assert(e.head_pos as int == e.abs_pos@ as int % size) by {
                vstd::arithmetic::div_mod::lemma_small_mod(
                    pre.write_index as nat,
                    size as nat,
                );
            }
            assert(e.wrap == spec_wrap_at(e.abs_pos@, size));
            assert(self.ring@[e.head_pos as int] == spec_chain_desc(
                tkn.buff_tkn,
                0,
                id,
                pre.wrap_count.0,
            )) by {
                vstd::arithmetic::div_mod::lemma_small_mod(pre.write_index as nat, size as nat);
                assert(slot_at(pre.write_index as int, 0, size) == pre.write_index as int);
            }
            lemma_flag_decomp(
                spec_chain_base_flags(tkn.buff_tkn, 0),
                pre.wrap_count.0,
                !pre.wrap_count.0,
            );
            assert(spec_chain_base_flags(tkn.buff_tkn, 0) <= 7);
        }
        // The chain layout extends by one link.
        assert(self.chain_layout()) by {
            assert forall|i: int| 0 <= i < m + 1 - 1 implies (#[trigger] self.entry(i + 1)).abs_pos@
                == self.entry(i).abs_pos@ + self.entry(i).num_slots by {
                if i + 1 < m {
                    assert(pre.entry(i + 1).abs_pos@ == pre.entry(i).abs_pos@ + pre.entry(
                        i,
                    ).num_slots);
                } else {
                    assert(i == m - 1);
                }
            }
        }
    }
}

/// Stepping an absolute slot offset by up to one ring of slots: where
/// the cursor lands and how its wrap counter changes.
pub proof fn lemma_wrap_step(abs: nat, k: nat, size: int)
    requires
        0 < size,
        k <= size,
    ensures
        (abs + k) as int % size == if (abs as int % size) + k >= size {
            (abs as int % size) + k - size
        } else {
            (abs as int % size) + k
        },
        spec_wrap_at((abs + k) as nat, size) == if (abs as int % size) + k >= size {
            !spec_wrap_at(abs, size)
        } else {
            spec_wrap_at(abs, size)
        },
{
    let q = abs as int / size;
    let r = abs as int % size;
    vstd::arithmetic::div_mod::lemma_fundamental_div_mod(abs as int, size);
    if r + k >= size {
        assert(abs as int + k == (q + 1) * size + (r + k - size)) by (nonlinear_arith)
            requires
                abs as int == size * q + r,
        ;
        vstd::arithmetic::div_mod::lemma_fundamental_div_mod_converse(
            abs as int + k,
            size,
            q + 1,
            r + k - size,
        );
        lemma_parity_step(q);
    } else {
        assert(abs as int + k == q * size + (r + k)) by (nonlinear_arith)
            requires
                abs as int == size * q + r,
        ;
        vstd::arithmetic::div_mod::lemma_fundamental_div_mod_converse(
            abs as int + k,
            size,
            q,
            r + k,
        );
    }
}

/// Adjacent integers have different parity.
proof fn lemma_parity_step(q: int)
    requires
        q >= 0,
    ensures
        ((q + 1) % 2 == 0) == !(q % 2 == 0),
{
    let t = q / 2;
    vstd::arithmetic::div_mod::lemma_fundamental_div_mod(q, 2);
    if q % 2 == 0 {
        vstd::arithmetic::div_mod::lemma_fundamental_div_mod_converse(q + 1, 2, t, 1);
    } else {
        vstd::arithmetic::div_mod::lemma_fundamental_div_mod_converse(q + 1, 2, t + 1, 0);
    }
}

/// Two absolute offsets less than one full ring apart land on
/// different slots.
pub proof fn lemma_mod_distinct(a: int, b: int, size: int)
    requires
        0 < size,
        0 <= a < b,
        b - a < size,
    ensures
        a % size != b % size,
{
    vstd::arithmetic::div_mod::lemma_fundamental_div_mod(a, size);
    vstd::arithmetic::div_mod::lemma_fundamental_div_mod(b, size);
    if a % size == b % size {
        let qa = a / size;
        let qb = b / size;
        assert(b - a == size * (qb - qa)) by (nonlinear_arith)
            requires
                a == size * qa + (a % size),
                b == size * qb + (b % size),
                a % size == b % size,
        ;
        assert(false) by (nonlinear_arith)
            requires
                b - a == size * (qb - qa),
                0 < b - a < size,
                0 < size,
        ;
    }
}

/// Adding whole rings to an offset does not move its slot.
pub proof fn lemma_mod_add_ring(x: int, size: int)
    requires
        0 < size,
        0 <= x,
    ensures
        (x + size) % size == x % size,
{
    vstd::arithmetic::div_mod::lemma_mod_multiples_vanish(1, x, size);
}

/// An element lies in a concatenation exactly when it lies in one of
/// the parts.
pub proof fn lemma_add_contains(a: Seq<u16>, b: Seq<u16>, x: u16)
    ensures
        (a + b).contains(x) <==> (a.contains(x) || b.contains(x)),
{
    if a.contains(x) {
        let i = choose|i: int| 0 <= i < a.len() && a[i] == x;
        assert((a + b)[i] == x);
    }
    if b.contains(x) {
        let i = choose|i: int| 0 <= i < b.len() && b[i] == x;
        assert((a + b)[a.len() + i] == x);
    }
    if (a + b).contains(x) {
        let i = choose|i: int| 0 <= i < (a + b).len() && (a + b)[i] == x;
        if i < a.len() {
            assert(a[i] == x);
        } else {
            assert(b[i - a.len()] == x);
        }
    }
}

/// Gives every identifier a buffer token holds back to the pool, in
/// the order `held_ids` lists them.
#[verifier::loop_isolation(false)]
fn ret_token_ids(pool: &mut MemPool, bt: &BufferToken)
    requires
        old(pool).wf(),
        bt.held_ids().no_duplicates(),
        forall|x: int|
            0 <= x < bt.held_ids().len() ==> 1 <= #[trigger] bt.held_ids()[x] <= old(pool).size,
        forall|x: int|
            0 <= x < bt.held_ids().len() ==> !old(pool).ids().contains(#[trigger] bt.held_ids()[x]),
    ensures
        final(pool).wf(),
        final(pool).size == old(pool).size,
        final(pool).arena_used == old(pool).arena_used,
        final(pool).ids() == old(pool).ids() + bt.held_ids(),
{
    let ghost held = bt.held_ids();
    // Collect the identifiers in the order `held_ids` lists them.
    let mut ids: Vec<u16> = Vec::new();
    match &bt.send_buff {
        Some(b) => {
            let ds = b.as_slice();
            let mut i: usize = 0;
            while i < ds.len()
                invariant
                    i <= ds.len(),
                    ids@ =~= b.held_payload_ids().take(i as int),
                decreases ds.len() - i,
            {
                ids.push(ds[i].id);
                proof {
                    assert(ids@ =~= b.held_payload_ids().take(i + 1));
                }
                i = i + 1;
            }
            proof {
                assert(ids@ =~= b.held_payload_ids());
            }
        },
        None => (),
    }
    let ghost part_a = ids@;
    match &bt.recv_buff {
        Some(b) => {
            let ds = b.as_slice();
            let mut i: usize = 0;
            while i < ds.len()
                invariant
                    i <= ds.len(),
                    ids@ =~= part_a + b.held_payload_ids().take(i as int),
                decreases ds.len() - i,
            {
                ids.push(ds[i].id);
                proof {
                    assert(ids@ =~= part_a + b.held_payload_ids().take(i + 1));
                }
                i = i + 1;
            }
            proof {
                assert(ids@ =~= part_a + b.held_payload_ids());
            }
        },
        None => (),
    }
    match &bt.send_buff {
        Some(b) => match b.get_ctrl_desc() {
            Some(c) => if c.id != 0 {
                ids.push(c.id);
            },
            None => (),
        },
        None => (),
    }
    match &bt.recv_buff {
        Some(b) => match b.get_ctrl_desc() {
            Some(c) => if c.id != 0 {
                ids.push(c.id);
            },
            None => (),
        },
        None => (),
    }
    proof {
        assert(ids@ =~= held);
    }
    // Hand them back one by one.
    let ghost base = pool.ids();
    let n = ids.len();
    let mut i: usize = 0;
    while i < n
        invariant
            i <= n,
            n == ids@.len(),
            ids@ == held,
            pool.wf(),
            pool.size == old(pool).size,
            pool.arena_used == old(pool).arena_used,
            pool.ids() =~= base + held.take(i as int),
        decreases n - i,
    {
        let accepted = pool.ret_id(crate::mempool::MemDescrId(ids[i]));
        proof {
            assert(held[i as int] == ids@[i as int]);
            assert(!base.contains(held[i as int]));
            assert(!held.take(i as int).contains(held[i as int])) by {
                if held.take(i as int).contains(held[i as int]) {
                    let w = choose|w: int|
                        0 <= w < i && held.take(i as int)[w] == held[i as int];
                    assert(held[w] == held[i as int]);
                }
            }
            lemma_add_contains(base, held.take(i as int), held[i as int]);
            assert(accepted);
            assert(pool.ids() =~= base + held.take(i + 1));
        }
        i = i + 1;
    }
    proof {
        assert(pool.ids() =~= base + held);
    }
}

/// Driver or device event suppression area of the packed layout:
/// `{desc, flags}`, 4-byte aligned on the wire.
#[derive(Copy, Clone, Debug, PartialEq, Eq, Structural)]
pub struct EventSuppr {
    /// Descriptor event field: a slot index in the low 15 bits and the
    /// triggering wrap phase in the top bit.
    pub desc: u16,
    /// Event flags: notifications enabled, disabled, or gated on the
    /// descriptor named in `desc`.
    pub flags: u16,
}

/// The identifiers drawn when `n` descriptors are pulled from a pool
/// whose free list is `s`: the last `n`, newest first.
pub open spec fn popped_ids(s: Seq<u16>, n: int) -> Seq<u16> {
    Seq::new(n as nat, |j: int| s[s.len() - 1 - j])
}

/// Event suppression flag value: notifications enabled.
pub const RING_EVENT_FLAGS_ENABLE: u16 = 0;

/// Event suppression flag value: notifications disabled.
pub const RING_EVENT_FLAGS_DISABLE: u16 = 1;

/// Event suppression flag value: notify only for the descriptor named
/// in the `desc` field.
pub const RING_EVENT_FLAGS_DESC: u16 = 2;

impl EventSuppr {
    /// A zero-initialized event suppression area, which enables
    /// notifications.
    pub fn new() -> (r: EventSuppr)
        ensures
            r.desc == 0,
            r.flags == RING_EVENT_FLAGS_ENABLE,
    {
        EventSuppr { desc: 0, flags: 0 }
    }

    /// Enables notifications.
    pub fn enable_notif(&mut self)
        ensures
            final(self).flags == RING_EVENT_FLAGS_ENABLE,
            final(self).desc == old(self).desc,
    {
        self.flags = RING_EVENT_FLAGS_ENABLE;
    }

    /// Disables notifications.
    pub fn disable_notif(&mut self)
        ensures
            final(self).flags == RING_EVENT_FLAGS_DISABLE,
            final(self).desc == old(self).desc,
    {
        self.flags = RING_EVENT_FLAGS_DISABLE;
    }

    /// Whether notifications are enabled for every completion.
    pub fn is_notif(&self) -> (r: bool)
        ensures
            r == (self.flags == RING_EVENT_FLAGS_ENABLE),
    {
        self.flags == RING_EVENT_FLAGS_ENABLE
    }

    /// Requests a notification only for the given descriptor slot
    /// under the given wrap phase. Needs the event-index feature and a
    /// slot index below `2^15`; returns whether the request was
    /// written.
    pub fn enable_specific(&mut self, descriptor_id: u16, on_wrap: WrapCount, event_idx: bool) -> (r:
        bool)
        ensures
            r == (event_idx && descriptor_id < 0x8000),
            if r {
                final(self).flags == RING_EVENT_FLAGS_DESC && final(self).desc == descriptor_id + (
                if on_wrap.0 {
                    0x8000 as int
                } else {
                    0
                })
            } else {
                *final(self) == *old(self)
            },
    {
        if !event_idx || descriptor_id >= 0x8000 {
            return false;
        }
        self.flags = RING_EVENT_FLAGS_DESC;
        self.desc = descriptor_id + (if on_wrap.0 {
            0x8000
        } else {
            0
        });
        true
    }
}

/// A copy of a size list.
pub(crate) fn copy_sizes(l: &Vec<usize>) -> (r: Vec<usize>)
    ensures
        r@ == l@,
{
    let mut r: Vec<usize> = Vec::new();
    let mut i: usize = 0;
    while i < l.len()
        invariant
            i <= l@.len(),
            r@ =~= l@.take(i as int),
        decreases l@.len() - i,
    {
        r.push(l[i]);
        proof {
            assert(r@ =~= l@.take(i + 1));
        }
        i = i + 1;
    }
    proof {
        assert(r@ =~= l@);
    }
    r
}

/// The word-aligned sum of a size list, or nothing when it exceeds
/// what the arena could ever hold.
#[verifier::loop_isolation(false)]
pub(crate) fn sum_aligned_checked(sizes: &Vec<usize>) -> (r: Option<usize>)
    ensures
        match r {
            Some(v) => v == seq_sum_aligned(sizes@) && v <= ARENA_CAPACITY,
            None => seq_sum_aligned(sizes@) > ARENA_CAPACITY,
        },
{
    let mut acc: usize = 0;
    let mut i: usize = 0;
    while i < sizes.len()
        invariant
            i <= sizes@.len(),
            acc == sum_aligned_upto(sizes@, i as int),
            acc <= ARENA_CAPACITY,
        decreases sizes@.len() - i,
    {
        let s = sizes[i];
        if s > ARENA_CAPACITY {
            proof {
                lemma_sum_aligned_mono(sizes@, i + 1, sizes@.len() as int);
                lemma_sum_le_aligned(sizes@, i as int);
            }
            return None;
        }
        let al = if s % WORD_ALIGN == 0 {
            s
        } else {
            s + (WORD_ALIGN - s % WORD_ALIGN)
        };
        if al > ARENA_CAPACITY - acc {
            proof {
                lemma_sum_aligned_mono(sizes@, i + 1, sizes@.len() as int);
            }
            return None;
        }
        acc = acc + al;
        i = i + 1;
    }
    Some(acc)
}

/// The plain sum of a size list, usable once the aligned sum is known
/// to fit the arena.
#[verifier::loop_isolation(false)]
pub(crate) fn sum_sizes(sizes: &Vec<usize>) -> (r: usize)
    requires
        seq_sum_aligned(sizes@) <= ARENA_CAPACITY,
    ensures
        r == seq_sum(sizes@),
{
    let mut acc: usize = 0;
    let mut i: usize = 0;
    while i < sizes.len()
        invariant
            i <= sizes@.len(),
            acc == seq_sum_upto(sizes@, i as int),
            acc <= ARENA_CAPACITY,
        decreases sizes@.len() - i,
    {
        proof {
            lemma_sum_le_aligned(sizes@, i + 1);
            lemma_sum_aligned_mono(sizes@, i + 1, sizes@.len() as int);
        }
        acc = acc + sizes[i];
        i = i + 1;
    }
    acc
}

/// Whether the listed sizes add up to exactly `expect` bytes.
#[verifier::loop_isolation(false)]
fn sum_eq(sizes: &Vec<usize>, expect: usize) -> (r: bool)
    ensures
        r == (seq_sum(sizes@) == expect),
{
    let mut acc: usize = 0;
    let mut i: usize = 0;
    while i < sizes.len()
        invariant
            i <= sizes@.len(),
            acc == seq_sum_upto(sizes@, i as int),
            acc <= expect,
        decreases sizes@.len() - i,
    {
        let s = sizes[i];
        if s > expect - acc {
            proof {
                lemma_seq_sum_mono(sizes@, i + 1, sizes@.len() as int);
            }
            return false;
        }
        acc = acc + s;
        i = i + 1;
    }
    acc == expect
}

/// Pulls one identifier per listed size from the pool and wraps the
/// matching stretch of a caller-owned region behind each; no arena
/// memory moves. The counts and bounds have been checked.
#[verifier::loop_isolation(false)]
fn pull_raw_descs(pool: &mut MemPool, sizes: &Vec<usize>, base: u64) -> (r: Vec<MemDescr>)
    requires
        old(pool).wf(),
        sizes@.len() <= old(pool).ids().len(),
        seq_sum(sizes@) <= u32::MAX,
        base + seq_sum(sizes@) <= u64::MAX,
    ensures
        final(pool).wf(),
        final(pool).size == old(pool).size,
        final(pool).arena_used == old(pool).arena_used,
        r@.len() == sizes@.len(),
        forall|i: int|
            0 <= i < r@.len() ==> {
                let d = #[trigger] r@[i];
                &&& d.len == sizes@[i]
                &&& !d.dealloc
                &&& d.id == old(pool).ids()[old(pool).ids().len() - 1 - i]
                &&& d.addr == base + seq_sum_upto(sizes@, i)
            },
        final(pool).ids() == old(pool).ids().take(
            old(pool).ids().len() - sizes@.len(),
        ),
{
    let ghost base_ids = old(pool).ids();
    let n = sizes.len();
    let mut r: Vec<MemDescr> = Vec::new();
    let mut acc: usize = 0;
    let mut i: usize = 0;
    while i < n
        invariant
            i <= n,
            n == sizes@.len(),
            pool.wf(),
            pool.size == old(pool).size,
            pool.arena_used == old(pool).arena_used,
            r@.len() == i,
            acc == seq_sum_upto(sizes@, i as int),
            forall|j: int|
                0 <= j < i ==> {
                    let d = #[trigger] r@[j];
                    &&& d.len == sizes@[j]
                    &&& !d.dealloc
                    &&& d.id == base_ids[base_ids.len() - 1 - j]
                    &&& d.addr == base + seq_sum_upto(sizes@, j)
                },
            pool.ids() =~= base_ids.take(base_ids.len() - i),
        decreases n - i,
    {
        proof {
            lemma_seq_sum_mono(sizes@, 0, i as int);
            lemma_seq_sum_mono(sizes@, i + 1, sizes@.len() as int);
        }
        let addr = base + acc as u64;
        let d = match pool.pull_from_raw(addr, sizes[i]) {
            Ok(d) => d,
            Err(_) => {
                proof {
                    assert(false);
                }
                return r;
            },
        };
        r.push(d);
        acc = acc + sizes[i];
        proof {
            assert(pool.ids() =~= base_ids.take(base_ids.len() - (i + 1)));
        }
        i = i + 1;
    }
    r
}

/// Pulls one descriptor per listed size from the pool, in order; the
/// counts and the arena space have been checked.
#[verifier::loop_isolation(false)]
fn pull_descs(pool: &mut MemPool, sizes: &Vec<usize>, dealloc: bool) -> (r: Vec<MemDescr>)
    requires
        old(pool).wf(),
        sizes@.len() <= old(pool).ids().len(),
        seq_sum_aligned(sizes@) <= ARENA_CAPACITY - old(pool).arena_used,
    ensures
        final(pool).wf(),
        final(pool).size == old(pool).size,
        r@.len() == sizes@.len(),
        forall|i: int|
            0 <= i < r@.len() ==> {
                let d = #[trigger] r@[i];
                &&& d.len == sizes@[i]
                &&& d.dealloc == dealloc
                &&& d.id == old(pool).ids()[old(pool).ids().len() - 1 - i]
            },
        final(pool).ids() == old(pool).ids().take(
            old(pool).ids().len() - sizes@.len(),
        ),
        final(pool).arena_used == old(pool).arena_used + seq_sum_aligned(sizes@),
{
    let ghost base = old(pool).ids();
    let n = sizes.len();
    let mut r: Vec<MemDescr> = Vec::new();
    let mut i: usize = 0;
    while i < n
        invariant
            i <= n,
            n == sizes@.len(),
            pool.wf(),
            pool.size == old(pool).size,
            r@.len() == i,
            forall|j: int|
                0 <= j < i ==> {
                    let d = #[trigger] r@[j];
                    &&& d.len == sizes@[j]
                    &&& d.dealloc == dealloc
                    &&& d.id == base[base.len() - 1 - j]
                },
            pool.ids() =~= base.take(base.len() - i),
            pool.arena_used == old(pool).arena_used + sum_aligned_upto(sizes@, i as int),
        decreases n - i,
    {
        proof {
            lemma_sum_aligned_mono(sizes@, i + 1, sizes@.len() as int);
            lemma_sum_aligned_mono(sizes@, 0, i as int);
        }
        let pulled = if dealloc {
            pool.pull(sizes[i])
        } else {
            pool.pull_untracked(sizes[i])
        };
        let d = match pulled {
            Ok(d) => d,
            Err(_) => {
                proof {
                    assert(false);
                }
                return r;
            },
        };
        r.push(d);
        proof {
            assert(pool.ids() =~= base.take(base.len() - (i + 1)));
        }
        i = i + 1;
    }
    r
}

/// Chain ordering on the wire: within one published chain, under any
/// wrap counter, every descriptor carrying `WRITE` comes after every
/// descriptor not carrying it.
pub proof fn lemma_published_chain_write_ordering(bt: BufferToken, i: int, j: int, id: u16, w: bool)
    requires
        !bt.is_indirect(),
        0 <= i <= j < bt.ring_len(),
        bit_is_set(spec_chain_desc(bt, i, id, w).flags, VIRTQ_DESC_F_WRITE),
    ensures
        bit_is_set(spec_chain_desc(bt, j, id, w).flags, VIRTQ_DESC_F_WRITE),
{
    lemma_flag_decomp(spec_chain_base_flags(bt, i), w, !w);
    lemma_flag_decomp(spec_chain_base_flags(bt, j), w, !w);
    lemma_chain_write_ordering(bt, i, j);
}

/// Wrap counter parity: a ring whose write cursor has made exactly
/// `n` full passes has its wrap counter equal to the initial value
/// exactly when `n` is even.
pub proof fn lemma_wrap_count_parity(ring: DescriptorRing, n: nat)
    requires
        ring.wf(),
        ring.abs_write@ == n * ring.size(),
    ensures
        ring.wrap_count.0 == (n % 2 == 0),
{
    let size = ring.size();
    assert((n * size) as int == size * (n as int)) by (nonlinear_arith);
    vstd::arithmetic::div_mod::lemma_div_multiples_vanish(n as int, size);
    assert(ring.abs_write@ as int / size == n as int);
}

/// The packed virtqueue: the descriptor ring, its event suppression
/// areas, the memory pool backing the payloads, and the completions
/// collected for callers that do not await delivery.
pub struct PackedVq {
    /// The shared descriptor ring and its cursors.
    pub descr_ring: DescriptorRing,
    /// Driver event suppression area, gating device-to-driver
    /// notifications.
    pub drv_event: EventSuppr,
    /// Device event suppression area, gating driver-to-device
    /// notifications; the device writes it.
    pub dev_event: EventSuppr,
    /// The pool of descriptor identifiers and payload memory.
    pub mem_pool: MemPool,
    /// The size of the queue, equal to the number of descriptors.
    pub size: VqSize,
    /// The queue's index, unique per device.
    pub index: VqIndex,
    /// The feature bits the device accepted.
    pub features: u64,
    /// Completed buffer tokens without a delivery endpoint, kept for
    /// later collection.
    pub finished: Vec<BufferToken>,
}

impl PackedVq {
    /// Well-formedness: the ring is well-formed and in step with the
    /// pool, and the recorded size is the ring's.
    pub open spec fn wf(self) -> bool {
        &&& self.descr_ring.wf()
        &&& self.descr_ring.pool_ok(self.mem_pool)
        &&& self.size.0 as int == self.descr_ring.size()
    }

    /// The token's identifiers are free to enter the ring: distinct,
    /// valid for the pool, not on the free list, and not held by any
    /// in-flight transfer.
    pub open spec fn token_ids_fresh(self, bt: BufferToken) -> bool {
        let h = bt.held_ids();
        &&& h.no_duplicates()
        &&& forall|x: int| 0 <= x < h.len() ==> 1 <= #[trigger] h[x] <= self.mem_pool.size
        &&& forall|x: int| 0 <= x < h.len() ==> !self.mem_pool.ids().contains(#[trigger] h[x])
        &&& forall|i: int|
            0 <= i < self.descr_ring.inflight_count() ==> seqs_disjoint(
                h,
                (#[trigger] self.descr_ring.entry(i)).tkn.buff_tkn.held_ids(),
            )
    }

    /// A fresh packed queue. The transport is handed plain values: it
    /// reported `num_queues` queues, and `features` is what the device
    /// accepted. Fails with `QueueNotExisting` for an index the
    /// transport does not know and with `SizeNotAllowed` for a size
    /// outside `1..=32768`.
    pub fn new(size: VqSize, index: VqIndex, num_queues: u16, features: u64) -> (r: Result<
        PackedVq,
        VqPackedError,
    >)
        ensures
            match r {
                Ok(vq) => {
                    &&& index.0 < num_queues
                    &&& 1 <= size.0 <= 32768
                    &&& vq.wf()
                    &&& vq.size == size
                    &&& vq.index == index
                    &&& vq.features == features
                    &&& vq.descr_ring.capacity == size.0
                    &&& vq.descr_ring.inflight_count() == 0
                    &&& vq.mem_pool.ids().len() == size.0
                    &&& vq.mem_pool.arena_used == 0
                    &&& vq.finished@.len() == 0
                    &&& vq.drv_event == EventSuppr { desc: 0u16, flags: 0u16 }
                    &&& vq.dev_event == EventSuppr { desc: 0u16, flags: 0u16 }
                },
                Err(VqPackedError::QueueNotExisting(i)) => i == index.0 && index.0 >= num_queues,
                Err(VqPackedError::SizeNotAllowed(s)) => {
                    &&& s == size.0
                    &&& index.0 < num_queues
                    &&& (size.0 == 0 || size.0 > 32768)
                },
                Err(_) => false,
            },
    {
        if index.0 >= num_queues {
            return Err(VqPackedError::QueueNotExisting(index.0));
        }
        if size.0 == 0 || size.0 > 32768 {
            return Err(VqPackedError::SizeNotAllowed(size.0));
        }
        let descr_ring = DescriptorRing::new(size.0);
        let mem_pool = MemPool::new(size.0);
        Ok(
            PackedVq {
                descr_ring,
                drv_event: EventSuppr::new(),
                dev_event: EventSuppr::new(),
                mem_pool,
                size,
                index,
                features,
                finished: Vec::new(),
            },
        )
    }

    /// The queue's index.
    pub fn index(&self) -> (r: VqIndex)
        ensures
            r == self.index,
    {
        self.index
    }

    /// The queue's size in descriptors.
    pub fn size(&self) -> (r: VqSize)
        ensures
            r == self.size,
    {
        self.size
    }

    /// A token's head identifier lies among the identifiers it holds.
    proof fn lemma_head_id_held(bt: BufferToken)
        requires
            bt.wf(),
            bt.fully_identified(),
            spec_head_id(bt) != 0,
        ensures
            bt.held_ids().contains(spec_head_id(bt)),
    {
        let h = bt.held_ids();
        if bt.is_indirect() {
            let c = spec_ctrl_of(bt);
            if bt.send_buff is Some && bt.send_buff.unwrap().is_indirect() {
                let a = match bt.send_buff {
                    Some(b) => b.held_payload_ids(),
                    None => Seq::empty(),
                };
                let b2 = match bt.recv_buff {
                    Some(b) => b.held_payload_ids(),
                    None => Seq::empty(),
                };
                assert(bt.send_buff.unwrap().held_ctrl_ids() == seq![c.id]);
                assert(h[a.len() + b2.len() as int] == c.id);
            } else {
                let a = match bt.send_buff {
                    Some(b) => b.held_payload_ids(),
                    None => Seq::empty(),
                };
                let b2 = match bt.recv_buff {
                    Some(b) => b.held_payload_ids(),
                    None => Seq::empty(),
                };
                let c3 = match bt.send_buff {
                    Some(b) => b.held_ctrl_ids(),
                    None => Seq::empty(),
                };
                assert(bt.recv_buff.unwrap().held_ctrl_ids() == seq![c.id]);
                assert(h[a.len() + b2.len() + c3.len() as int] == c.id);
            }
        } else if bt.send_descs().len() > 0 {
            assert(h[0] == bt.send_descs()[0].id);
        } else {
            let a = match bt.send_buff {
                Some(b) => b.held_payload_ids(),
                None => Seq::empty(),
            };
            assert(a.len() == 0);
            assert(h[0] == bt.recv_descs()[0].id);
        }
    }

    /// Dispatches a prepared transfer: publishes its chain in the
    /// ring and pins the token under the returned buffer identifier,
    /// through which the completion is later matched and an early
    /// drop can be filed. Fails with `NoDescrAvail`, changing
    /// nothing, when the ring lacks the slots.
    pub fn dispatch(&mut self, tkn: TransferToken) -> (r: Result<u16, VirtqError>)
        requires
            old(self).wf(),
            tkn.buff_tkn.wf(),
            tkn.buff_tkn.fully_identified(),
            tkn.state is Ready,
            spec_head_id(tkn.buff_tkn) != 0,
            old(self).token_ids_fresh(tkn.buff_tkn),
        ensures
            final(self).wf(),
            final(self).mem_pool == old(self).mem_pool,
            final(self).size == old(self).size,
            final(self).index == old(self).index,
            final(self).features == old(self).features,
            final(self).finished == old(self).finished,
            match r {
                Ok(id) => DescriptorRing::spec_pushed(
                    old(self).descr_ring,
                    final(self).descr_ring,
                    tkn,
                    id,
                ),
                Err(VirtqError::NoDescrAvail) => {
                    &&& tkn.buff_tkn.ring_len() > old(self).descr_ring.capacity
                    &&& final(self).descr_ring.unchanged_from(old(self).descr_ring)
                },
                Err(_) => false,
            },
    {
        let ghost pre = *self;
        proof {
            Self::lemma_head_id_held(tkn.buff_tkn);
            let id = spec_head_id(tkn.buff_tkn);
            let h = tkn.buff_tkn.held_ids();
            let hx = choose|hx: int| 0 <= hx < h.len() && h[hx] == id;
            assert(1 <= id <= pre.descr_ring.size());
            if pre.descr_ring.tkn_ref_ring@[id as int] is Some {
                assert(pre.descr_ring.order@.contains(id));
                let w = choose|w: int|
                    0 <= w < pre.descr_ring.order@.len() && pre.descr_ring.order@[w] == id;
                assert(pre.descr_ring.entry_wf(w));
                let e = pre.descr_ring.entry(w);
                Self::lemma_head_id_held(e.tkn.buff_tkn);
                assert(e.tkn.buff_tkn.held_ids().contains(id));
                assert(seqs_disjoint(h, e.tkn.buff_tkn.held_ids()));
                assert(h.contains(id));
                assert(false);
            }
        }
        let r = self.descr_ring.push(tkn);
        proof {
            if r is Ok {
                let id = r.unwrap();
                let m = pre.descr_ring.inflight_count();
                assert forall|i: int|
                    0 <= i < self.descr_ring.inflight_count() implies self.descr_ring.entry_ids_ok(
                    i,
                    self.mem_pool,
                ) by {
                    if i < m {
                        assert(self.descr_ring.entry(i) == pre.descr_ring.entry(i)) by {
                            assert(pre.descr_ring.order@.contains(pre.descr_ring.order@[i]));
                        }
                        assert(pre.descr_ring.entry_ids_ok(i, pre.mem_pool));
                    } else {
                        assert(self.descr_ring.entry(i).tkn.buff_tkn == tkn.buff_tkn);
                        let h = self.descr_ring.entry(i).tkn.buff_tkn.held_ids();
                        assert(h == tkn.buff_tkn.held_ids());
                        assert(h.no_duplicates());
                        assert forall|x: int| 0 <= x < h.len() implies 1 <= #[trigger] h[x]
                            <= self.mem_pool.size by {
                            assert(tkn.buff_tkn.held_ids()[x] == h[x]);
                        }
                        assert forall|x: int|
                            0 <= x < h.len() implies !self.mem_pool.ids().contains(
                            #[trigger] h[x],
                        ) by {
                            assert(tkn.buff_tkn.held_ids()[x] == h[x]);
                        }
                    }
                }
                assert forall|i: int, j: int|
                    0 <= i < j < self.descr_ring.inflight_count() implies seqs_disjoint(
                    (#[trigger] self.descr_ring.entry(i)).tkn.buff_tkn.held_ids(),
                    (#[trigger] self.descr_ring.entry(j)).tkn.buff_tkn.held_ids(),
                ) by {
                    if j < m {
                        assert(pre.descr_ring.order@.contains(pre.descr_ring.order@[i]));
                        assert(pre.descr_ring.order@.contains(pre.descr_ring.order@[j]));
                        assert(self.descr_ring.entry(i) == pre.descr_ring.entry(i));
                        assert(self.descr_ring.entry(j) == pre.descr_ring.entry(j));
                        assert(seqs_disjoint(
                            pre.descr_ring.entry(i).tkn.buff_tkn.held_ids(),
                            pre.descr_ring.entry(j).tkn.buff_tkn.held_ids(),
                        ));
                    } else {
                        assert(pre.descr_ring.order@.contains(pre.descr_ring.order@[i]));
                        assert(self.descr_ring.entry(i) == pre.descr_ring.entry(i));
                        assert(self.descr_ring.entry(j).tkn.buff_tkn == tkn.buff_tkn);
                        let hi = pre.descr_ring.entry(i).tkn.buff_tkn.held_ids();
                        assert(seqs_disjoint(tkn.buff_tkn.held_ids(), hi));
                        assert forall|x: u16| hi.contains(x) implies !tkn.buff_tkn.held_ids()
                            .contains(x) by {}
                    }
                }
            } else {
                assert forall|i: int|
                    0 <= i < self.descr_ring.inflight_count() implies self.descr_ring.entry_ids_ok(
                    i,
                    self.mem_pool,
                ) by {
                    assert(self.descr_ring.entry(i) == pre.descr_ring.entry(i));
                    assert(pre.descr_ring.entry_ids_ok(i, pre.mem_pool));
                }
                assert forall|i: int, j: int|
                    0 <= i < j < self.descr_ring.inflight_count() implies seqs_disjoint(
                    (#[trigger] self.descr_ring.entry(i)).tkn.buff_tkn.held_ids(),
                    (#[trigger] self.descr_ring.entry(j)).tkn.buff_tkn.held_ids(),
                ) by {
                    assert(self.descr_ring.entry(i) == pre.descr_ring.entry(i));
                    assert(self.descr_ring.entry(j) == pre.descr_ring.entry(j));
                    assert(seqs_disjoint(
                        pre.descr_ring.entry(i).tkn.buff_tkn.held_ids(),
                        pre.descr_ring.entry(j).tkn.buff_tkn.held_ids(),
                    ));
                }
            }
        }
        r
    }

    /// Drains completions: returns the buffer tokens of retired
    /// transfers that await delivery, in the order the device retired
    /// them; stores the others on the finished list; and gives the
    /// identifiers of early-dropped transfers back to the pool.
    pub fn poll(&mut self) -> (r: Vec<BufferToken>)
        requires
            old(self).wf(),
        ensures
            final(self).wf(),
            final(self).size == old(self).size,
            final(self).index == old(self).index,
            final(self).features == old(self).features,
            final(self).mem_pool.size == old(self).mem_pool.size,
            final(self).mem_pool.arena_used == old(self).mem_pool.arena_used,
            r@ == old(self).descr_ring.delivered_from(0),
            final(self).finished@ == old(self).finished@ + old(self).descr_ring.finished_from(0),
            final(self).mem_pool.ids() == old(self).mem_pool.ids()
                + old(self).descr_ring.returned_ids_from(0),
            final(self).descr_ring.order@ == old(self).descr_ring.order@.skip(
                old(self).descr_ring.drained_count(0),
            ),
            final(self).descr_ring.ring@ == old(self).descr_ring.ring@,
            final(self).descr_ring.abs_write@ == old(self).descr_ring.abs_write@,
    {
        self.descr_ring.poll(&mut self.mem_pool, &mut self.finished)
    }

    /// Files an early drop of the in-flight transfer under `buff_id`:
    /// the queue keeps it until the device retires it, then returns
    /// its identifiers without delivering anything. Returns whether
    /// such a transfer was tracked; dropping a transfer that was
    /// never dispatched has no place here, as its token never entered
    /// the queue.
    pub fn early_drop(&mut self, buff_id: u16) -> (r: bool)
        requires
            old(self).wf(),
        ensures
            final(self).wf(),
            final(self).mem_pool == old(self).mem_pool,
            final(self).size == old(self).size,
            final(self).index == old(self).index,
            final(self).features == old(self).features,
            final(self).finished == old(self).finished,
            r == (1 <= buff_id <= old(self).size.0 && old(
                self,
            ).descr_ring.tkn_ref_ring@[buff_id as int] is Some),
            if r {
                DescriptorRing::spec_marked_dropped(
                    old(self).descr_ring,
                    final(self).descr_ring,
                    buff_id,
                )
            } else {
                final(self).descr_ring.unchanged_from(old(self).descr_ring)
            },
    {
        self.descr_ring.mark_dropped(buff_id)
    }

    /// The device's half of the protocol, modelled in place: retires
    /// the chain under `buff_id` with `written_len` bytes written to
    /// its receive side. Returns whether there was such a chain to
    /// retire.
    pub fn device_mark_used(&mut self, buff_id: u16, written_len: u32) -> (r: bool)
        requires
            old(self).wf(),
        ensures
            final(self).wf(),
            final(self).mem_pool == old(self).mem_pool,
            final(self).size == old(self).size,
            final(self).index == old(self).index,
            final(self).features == old(self).features,
            final(self).finished == old(self).finished,
            r == old(self).descr_ring.spec_device_accepts(buff_id, written_len),
            if r {
                DescriptorRing::spec_marked_used(
                    old(self).descr_ring,
                    final(self).descr_ring,
                    buff_id,
                    written_len,
                )
            } else {
                final(self).descr_ring.unchanged_from(old(self).descr_ring)
            },
    {
        self.descr_ring.device_mark_used(buff_id, written_len)
    }

    /// Hands out the completed buffer tokens that were only marked
    /// finished, in completion order, and empties the list.
    pub fn collect_finished(&mut self) -> (r: Vec<BufferToken>)
        requires
            old(self).wf(),
        ensures
            final(self).wf(),
            r@ == old(self).finished@,
            final(self).finished@.len() == 0,
            final(self).descr_ring == old(self).descr_ring,
            final(self).mem_pool == old(self).mem_pool,
            final(self).size == old(self).size,
            final(self).index == old(self).index,
            final(self).features == old(self).features,
    {
        let mut tmp: Vec<BufferToken> = Vec::new();
        core::mem::swap(&mut tmp, &mut self.finished);
        tmp
    }

    /// Returns a buffer token for good: every identifier it holds
    /// becomes free again. The token must be out of flight and its
    /// identifiers must belong to this queue.
    pub fn return_token(&mut self, tkn: BufferToken)
        requires
            old(self).wf(),
            old(self).token_ids_fresh(tkn),
        ensures
            final(self).wf(),
            final(self).mem_pool.ids() == old(self).mem_pool.ids() + tkn.held_ids(),
            final(self).mem_pool.size == old(self).mem_pool.size,
            final(self).mem_pool.arena_used == old(self).mem_pool.arena_used,
            final(self).descr_ring == old(self).descr_ring,
            final(self).size == old(self).size,
            final(self).index == old(self).index,
            final(self).features == old(self).features,
            final(self).finished == old(self).finished,
    {
        let ghost pre = *self;
        ret_token_ids(&mut self.mem_pool, &tkn);
        proof {
            let held0 = tkn.held_ids();
            assert forall|jj: int|
                0 <= jj < self.descr_ring.inflight_count() implies self.descr_ring.entry_ids_ok(
                jj,
                self.mem_pool,
            ) by {
                assert(pre.descr_ring.entry_ids_ok(jj, pre.mem_pool));
                assert(seqs_disjoint(held0, pre.descr_ring.entry(jj).tkn.buff_tkn.held_ids()));
                let h = self.descr_ring.entry(jj).tkn.buff_tkn.held_ids();
                assert forall|x: int| 0 <= x < h.len() implies !self.mem_pool.ids().contains(
                    #[trigger] h[x],
                ) by {
                    assert(!pre.mem_pool.ids().contains(h[x]));
                    assert(h.contains(h[x]));
                    assert(!held0.contains(h[x]));
                    lemma_add_contains(pre.mem_pool.ids(), held0, h[x]);
                }
            }
        }
    }

    /// Clears the interrupt-suppression bid in the driver event area:
    /// the device may notify on every completion.
    pub fn enable_notifs(&mut self)
        ensures
            final(self).drv_event.flags == RING_EVENT_FLAGS_ENABLE,
            final(self).drv_event.desc == old(self).drv_event.desc,
            final(self).descr_ring == old(self).descr_ring,
            final(self).mem_pool == old(self).mem_pool,
            final(self).dev_event == old(self).dev_event,
            final(self).size == old(self).size,
            final(self).index == old(self).index,
            final(self).features == old(self).features,
            final(self).finished == old(self).finished,
            final(self).wf() == old(self).wf(),
    {
        self.drv_event.enable_notif();
    }

    /// Sets the suppression flag in the driver event area: the device
    /// should not notify completions.
    pub fn disable_notifs(&mut self)
        ensures
            final(self).drv_event.flags == RING_EVENT_FLAGS_DISABLE,
            final(self).drv_event.desc == old(self).drv_event.desc,
            final(self).descr_ring == old(self).descr_ring,
            final(self).mem_pool == old(self).mem_pool,
            final(self).dev_event == old(self).dev_event,
            final(self).size == old(self).size,
            final(self).index == old(self).index,
            final(self).features == old(self).features,
            final(self).finished == old(self).finished,
            final(self).wf() == old(self).wf(),
    {
        self.drv_event.disable_notif();
    }

    /// Whether the device currently asks to be notified of new
    /// available descriptors, read from the device event area.
    pub fn dev_is_notif(&self) -> (r: bool)
        ensures
            r == (self.dev_event.flags == RING_EVENT_FLAGS_ENABLE),
    {
        self.dev_event.is_notif()
    }

    /// The device's half of notification control, modelled in place:
    /// writes the device event area.
    pub fn device_set_notif(&mut self, enable: bool)
        ensures
            final(self).dev_event.flags == if enable {
                RING_EVENT_FLAGS_ENABLE as int
            } else {
                RING_EVENT_FLAGS_DISABLE as int
            },
            final(self).dev_event.desc == old(self).dev_event.desc,
            final(self).descr_ring == old(self).descr_ring,
            final(self).mem_pool == old(self).mem_pool,
            final(self).drv_event == old(self).drv_event,
            final(self).size == old(self).size,
            final(self).index == old(self).index,
            final(self).features == old(self).features,
            final(self).finished == old(self).finished,
            final(self).wf() == old(self).wf(),
    {
        if enable {
            self.dev_event.enable_notif();
        } else {
            self.dev_event.disable_notif();
        }
    }

    /// Ring slots held by the in-flight chains from queue position
    /// `i` on.
    pub open spec fn inflight_chain_slots(self, i: int) -> int
        decreases self.descr_ring.inflight_count() - i,
        when 0 <= i <= self.descr_ring.inflight_count()
    {
        if i >= self.descr_ring.inflight_count() {
            0
        } else {
            self.descr_ring.entry(i).num_slots + self.inflight_chain_slots(i + 1)
        }
    }

    /// The chains from position `i` on cover the stretch from chain
    /// `i`'s start to the write cursor.
    proof fn lemma_chain_slots_stretch(self, i: int)
        requires
            self.wf(),
            0 <= i <= self.descr_ring.inflight_count(),
        ensures
            self.inflight_chain_slots(i) == self.descr_ring.abs_write@ - (if i
                < self.descr_ring.inflight_count() {
                self.descr_ring.entry(i).abs_pos@ as int
            } else {
                self.descr_ring.abs_write@ as int
            }),
        decreases self.descr_ring.inflight_count() - i,
    {
        let m = self.descr_ring.inflight_count();
        if i < m {
            self.lemma_chain_slots_stretch(i + 1);
            if i + 1 < m {
                assert(self.descr_ring.entry(i + 1).abs_pos@ == self.descr_ring.entry(i).abs_pos@
                    + self.descr_ring.entry(i).num_slots);
            }
        }
    }

    /// Descriptor accounting: the free capacity plus the slots held
    /// by the in-flight chains is always the queue size, each chain
    /// holding exactly its token's chain length. Once nothing is in
    /// flight, the capacity is the full size again; the pool-side
    /// half of the accounting is `MemPool::lemma_full_pool_holds_every_id`.
    pub proof fn lemma_descriptor_accounting(self)
        requires
            self.wf(),
        ensures
            self.descr_ring.capacity + self.inflight_chain_slots(0) == self.descr_ring.size(),
            forall|i: int|
                0 <= i < self.descr_ring.inflight_count() ==> (#[trigger] self.descr_ring.entry(
                    i,
                )).num_slots == self.descr_ring.entry(i).tkn.buff_tkn.ring_len(),
            self.descr_ring.inflight_count() == 0 ==> self.descr_ring.capacity
                == self.descr_ring.size(),
    {
        self.lemma_chain_slots_stretch(0);
        assert forall|i: int|
            0 <= i < self.descr_ring.inflight_count() implies (#[trigger] self.descr_ring.entry(
            i,
        )).num_slots == self.descr_ring.entry(i).tkn.buff_tkn.ring_len() by {
            assert(self.descr_ring.entry_wf(i));
        }
    }

    /// Whether exactly one side of a request is indirect while the
    /// other is given and direct.
    pub open spec fn indirect_mixed(send: Option<BuffSpec>, recv: Option<BuffSpec>) -> bool {
        &&& send is Some
        &&& recv is Some
        &&& send.unwrap().is_indirect() != recv.unwrap().is_indirect()
    }

    /// Whether any side of a request asks for an indirect table.
    pub open spec fn any_indirect(send: Option<BuffSpec>, recv: Option<BuffSpec>) -> bool {
        ||| (send is Some && send.unwrap().is_indirect())
        ||| (recv is Some && recv.unwrap().is_indirect())
    }

    /// Whether every given side names at least one chunk.
    pub open spec fn specs_valid(send: Option<BuffSpec>, recv: Option<BuffSpec>) -> bool {
        &&& (send is Some ==> send.unwrap().valid())
        &&& (recv is Some ==> recv.unwrap().valid())
    }

    /// The chunk sizes one side asks for, empty for an absent side.
    pub open spec fn side_sizes(spec: Option<BuffSpec>) -> Seq<usize> {
        match spec {
            Some(sp) => sp.seg_sizes(),
            None => Seq::empty(),
        }
    }

    /// A request is well-shaped: something is asked for, indirect is
    /// not mixed with direct, indirect tables are negotiated, and no
    /// side is empty.
    pub open spec fn prep_args_ok(features: u64, send: Option<BuffSpec>, recv: Option<
        BuffSpec,
    >) -> bool {
        &&& (send is Some || recv is Some)
        &&& !Self::indirect_mixed(send, recv)
        &&& (Self::any_indirect(send, recv) ==> feature_is_set(features, F_INDIRECT_DESC))
        &&& Self::specs_valid(send, recv)
    }

    /// Pool identifiers a request consumes: one per chunk, plus one
    /// for the control descriptor of an indirect request.
    pub open spec fn needed_ids(send: Option<BuffSpec>, recv: Option<BuffSpec>) -> int {
        Self::side_sizes(send).len() + Self::side_sizes(recv).len() + if Self::any_indirect(
            send,
            recv,
        ) {
            1int
        } else {
            0int
        }
    }

    /// Bytes of the indirect control table: sixteen per chunk of
    /// either side.
    pub open spec fn ctrl_bytes(send: Option<BuffSpec>, recv: Option<BuffSpec>) -> int {
        if Self::any_indirect(send, recv) {
            16 * (Self::side_sizes(send).len() + Self::side_sizes(recv).len() as int)
        } else {
            0
        }
    }

    /// Arena bytes a request consumes: the aligned payloads plus the
    /// control table.
    pub open spec fn needed_arena(send: Option<BuffSpec>, recv: Option<BuffSpec>) -> int {
        seq_sum_aligned(Self::side_sizes(send)) + seq_sum_aligned(Self::side_sizes(recv))
            + Self::ctrl_bytes(send, recv)
    }

    /// One side of a built token matches its request: same shape, one
    /// chunk per listed size, the given ownership of the payloads, and
    /// the logical length equal to the total.
    pub open spec fn side_built(buf: Option<Buffer>, spec: Option<BuffSpec>, payload_dealloc: bool) -> bool {
        match (buf, spec) {
            (None, None) => true,
            (Some(b), Some(sp)) => {
                &&& (b is Single <==> sp is Single)
                &&& (b is Multiple <==> sp is Multiple)
                &&& (b is Indirect <==> sp is Indirect)
                &&& b.descs().len() == sp.seg_sizes().len()
                &&& forall|i: int|
                    0 <= i < b.descs().len() ==> (#[trigger] b.descs()[i]).len
                        == sp.seg_sizes()[i]
                &&& forall|i: int|
                    0 <= i < b.descs().len() ==> (#[trigger] b.descs()[i]).dealloc
                        == payload_dealloc
                &&& b.spec_len() == seq_sum(sp.seg_sizes())
            },
            _ => false,
        }
    }

    /// What a failing preparation tells: which condition of the
    /// request check tripped, in checking order.
    pub open spec fn spec_prep_error(
        pre: PackedVq,
        send: Option<BuffSpec>,
        recv: Option<BuffSpec>,
        e: VirtqError,
    ) -> bool {
        match e {
            VirtqError::BufferNotSpecified => send is None && recv is None,
            VirtqError::BufferInWithDirect => Self::indirect_mixed(send, recv),
            VirtqError::FeatureNotNegotiated(f) => {
                &&& f == F_INDIRECT_DESC
                &&& (send is Some || recv is Some)
                &&& !Self::indirect_mixed(send, recv)
                &&& Self::any_indirect(send, recv)
                &&& !feature_is_set(pre.features, F_INDIRECT_DESC)
            },
            VirtqError::BufferSizeWrong(l) => {
                &&& l == 0
                &&& (send is Some || recv is Some)
                &&& !Self::indirect_mixed(send, recv)
                &&& (Self::any_indirect(send, recv) ==> feature_is_set(
                    pre.features,
                    F_INDIRECT_DESC,
                ))
                &&& !Self::specs_valid(send, recv)
            },
            VirtqError::NoDescrAvail => {
                &&& Self::prep_args_ok(pre.features, send, recv)
                &&& Self::needed_ids(send, recv) > pre.mem_pool.ids().len()
            },
            VirtqError::AllocationError => {
                &&& Self::prep_args_ok(pre.features, send, recv)
                &&& Self::needed_ids(send, recv) <= pre.mem_pool.ids().len()
                &&& Self::needed_arena(send, recv) > ARENA_CAPACITY - pre.mem_pool.arena_used
            },
            _ => false,
        }
    }

    /// What a successful preparation built: a reusable token of the
    /// requested shape whose identifiers are exactly the ones drawn
    /// from the pool, fresh for this queue.
    pub open spec fn spec_prepped(
        pre: PackedVq,
        post: PackedVq,
        send: Option<BuffSpec>,
        recv: Option<BuffSpec>,
        bt: BufferToken,
    ) -> bool {
        let n = Self::needed_ids(send, recv);
        let ind = Self::any_indirect(send, recv);
        &&& Self::prep_args_ok(pre.features, send, recv)
        &&& n <= pre.mem_pool.ids().len()
        &&& Self::needed_arena(send, recv) <= ARENA_CAPACITY - pre.mem_pool.arena_used
        &&& bt.wf()
        &&& bt.fully_identified()
        &&& spec_head_id(bt) != 0
        &&& Self::side_built(bt.send_buff, send, !ind)
        &&& Self::side_built(bt.recv_buff, recv, !ind)
        &&& bt.ret_send == (send is Some)
        &&& bt.ret_recv == (recv is Some)
        &&& bt.reusable
        &&& (ind ==> {
            let c = spec_ctrl_of(bt);
            &&& c.id != 0
            &&& c.dealloc
            &&& c.len == Self::ctrl_bytes(send, recv)
            &&& (send is Some && recv is Some ==> {
                let rc = bt.recv_buff.unwrap().spec_ctrl_desc().unwrap();
                &&& rc.id == 0
                &&& !rc.dealloc
                &&& rc.addr == c.addr
                &&& rc.len == c.len
            })
        })
        &&& bt.held_ids() == popped_ids(pre.mem_pool.ids(), n)
        &&& post.mem_pool.ids() == pre.mem_pool.ids().take(pre.mem_pool.ids().len() - n)
        &&& post.mem_pool.arena_used == pre.mem_pool.arena_used + Self::needed_arena(send, recv)
        &&& post.token_ids_fresh(bt)
    }

    /// Prepares a reusable buffer token of the requested shape: both
    /// halves are allocated from the pool, and the caller fills them
    /// before each dispatch. A failing call reports the first
    /// condition that tripped and leaves the pool unchanged.
    #[verifier::rlimit(100)]
    pub fn prep_buffer(&mut self, send: Option<BuffSpec>, recv: Option<BuffSpec>) -> (r: Result<
        BufferToken,
        VirtqError,
    >)
        requires
            old(self).wf(),
        ensures
            final(self).wf(),
            final(self).descr_ring == old(self).descr_ring,
            final(self).size == old(self).size,
            final(self).index == old(self).index,
            final(self).features == old(self).features,
            final(self).finished == old(self).finished,
            final(self).mem_pool.size == old(self).mem_pool.size,
            match r {
                Ok(bt) => Self::spec_prepped(*old(self), *final(self), send, recv, bt),
                Err(e) => final(self).mem_pool.unchanged_from(old(self).mem_pool)
                    && Self::spec_prep_error(*old(self), send, recv, e),
            },
    {
        let ghost pre = *self;
        // Request checks, in order; nothing is drawn until all pass.
        let send_present = send.is_some();
        let recv_present = recv.is_some();
        if !send_present && !recv_present {
            return Err(VirtqError::BufferNotSpecified);
        }
        let send_ind = match &send {
            Some(BuffSpec::Indirect(_)) => true,
            _ => false,
        };
        let recv_ind = match &recv {
            Some(BuffSpec::Indirect(_)) => true,
            _ => false,
        };
        if send_present && recv_present && send_ind != recv_ind {
            return Err(VirtqError::BufferInWithDirect);
        }
        let any_ind = send_ind || recv_ind;
        if any_ind && (self.features / F_INDIRECT_DESC) % 2 != 1 {
            return Err(VirtqError::FeatureNotNegotiated(F_INDIRECT_DESC));
        }
        let mut send_sizes: Vec<usize> = Vec::new();
        match &send {
            Some(BuffSpec::Single(s)) => {
                send_sizes.push(*s);
            },
            Some(BuffSpec::Multiple(l)) => {
                send_sizes = copy_sizes(l);
            },
            Some(BuffSpec::Indirect(l)) => {
                send_sizes = copy_sizes(l);
            },
            None => (),
        }
        let mut recv_sizes: Vec<usize> = Vec::new();
        match &recv {
            Some(BuffSpec::Single(s)) => {
                recv_sizes.push(*s);
            },
            Some(BuffSpec::Multiple(l)) => {
                recv_sizes = copy_sizes(l);
            },
            Some(BuffSpec::Indirect(l)) => {
                recv_sizes = copy_sizes(l);
            },
            None => (),
        }
        proof {
            assert(send_sizes@ =~= Self::side_sizes(send));
            assert(recv_sizes@ =~= Self::side_sizes(recv));
        }
        if (send_present && send_sizes.len() == 0) || (recv_present && recv_sizes.len() == 0) {
            return Err(VirtqError::BufferSizeWrong(0));
        }
        let n_s = send_sizes.len();
        let n_r = recv_sizes.len();
        let extra: usize = if any_ind {
            1
        } else {
            0
        };
        let free = self.mem_pool.free_count();
        if n_s > free || n_r > free - n_s || extra > free - n_s - n_r {
            return Err(VirtqError::NoDescrAvail);
        }
        let remaining = ARENA_CAPACITY - self.mem_pool.arena_used;
        let sum_a = match sum_aligned_checked(&send_sizes) {
            Some(v) => v,
            None => {
                proof {
                    lemma_sum_aligned_mono(recv_sizes@, 0, recv_sizes@.len() as int);
                }
                return Err(VirtqError::AllocationError);
            },
        };
        let sum_b = match sum_aligned_checked(&recv_sizes) {
            Some(v) => v,
            None => {
                proof {
                    lemma_sum_aligned_mono(send_sizes@, 0, send_sizes@.len() as int);
                }
                return Err(VirtqError::AllocationError);
            },
        };
        let ctrl_b: usize = if any_ind {
            16 * (n_s + n_r)
        } else {
            0
        };
        if sum_a > remaining || sum_b > remaining - sum_a || ctrl_b > remaining - sum_a - sum_b {
            proof {
                lemma_sum_aligned_mono(send_sizes@, 0, send_sizes@.len() as int);
                lemma_sum_aligned_mono(recv_sizes@, 0, recv_sizes@.len() as int);
            }
            return Err(VirtqError::AllocationError);
        }
        // Draw the identifiers and payload memory: send payloads,
        // receive payloads, then the control descriptor.
        let ghost l0 = pre.mem_pool.ids().len() as int;
        let ds_send: Vec<MemDescr> = if send_present {
            pull_descs(&mut self.mem_pool, &send_sizes, !any_ind)
        } else {
            Vec::new()
        };
        let ds_recv: Vec<MemDescr> = if recv_present {
            proof {
                lemma_sum_aligned_mono(send_sizes@, 0, send_sizes@.len() as int);
            }
            pull_descs(&mut self.mem_pool, &recv_sizes, !any_ind)
        } else {
            Vec::new()
        };
        let ctrl: Option<MemDescr> = if any_ind {
            proof {
                lemma_sum_aligned_mono(send_sizes@, 0, send_sizes@.len() as int);
                lemma_sum_aligned_mono(recv_sizes@, 0, recv_sizes@.len() as int);
                assert(MemPool::spec_align_up(ctrl_b as int) == ctrl_b as int) by {
                    assert(ctrl_b == 16 * (n_s + n_r));
                    assert((16 * (n_s + n_r)) % 8 == 0) by (nonlinear_arith);
                }
            }
            match self.mem_pool.pull(ctrl_b) {
                Ok(d) => Some(d),
                Err(_) => {
                    proof {
                        assert(false);
                    }
                    return Err(VirtqError::AllocationError);
                },
            }
        } else {
            None
        };
        // Logical lengths and the two buffer halves.
        let len_s = if send_present {
            sum_sizes(&send_sizes)
        } else {
            0
        };
        let len_r = if recv_present {
            sum_sizes(&recv_sizes)
        } else {
            0
        };
        let send_buff: Option<Buffer> = if send_present {
            if send_ind {
                let c = match &ctrl {
                    Some(c) => *c,
                    None => MemDescr { addr: 0, len: 0, id: 0, dealloc: false },
                };
                Some(Buffer::Indirect { desc_lst: ds_send, ctrl_desc: c, len: len_s, next_write: 0 })
            } else {
                match &send {
                    Some(BuffSpec::Single(_)) => Some(
                        Buffer::Single { desc_lst: ds_send, len: len_s, next_write: 0 },
                    ),
                    _ => Some(Buffer::Multiple { desc_lst: ds_send, len: len_s, next_write: 0 }),
                }
            }
        } else {
            None
        };
        let recv_buff: Option<Buffer> = if recv_present {
            if recv_ind {
                let c = match &ctrl {
                    Some(c) => *c,
                    None => MemDescr { addr: 0, len: 0, id: 0, dealloc: false },
                };
                let rc = if send_present {
                    c.no_dealloc_clone()
                } else {
                    c
                };
                Some(
                    Buffer::Indirect { desc_lst: ds_recv, ctrl_desc: rc, len: len_r, next_write: 0 },
                )
            } else {
                match &recv {
                    Some(BuffSpec::Single(_)) => Some(
                        Buffer::Single { desc_lst: ds_recv, len: len_r, next_write: 0 },
                    ),
                    _ => Some(Buffer::Multiple { desc_lst: ds_recv, len: len_r, next_write: 0 }),
                }
            }
        } else {
            None
        };
        let bt = BufferToken {
            send_buff,
            recv_buff,
            ret_send: send_present,
            ret_recv: recv_present,
            reusable: true,
        };
        proof {
            let ids0 = pre.mem_pool.ids();
            let l0 = ids0.len() as int;
            let ns = n_s as int;
            let nr = n_r as int;
            lemma_size_bounds(send_sizes@);
            lemma_size_bounds(recv_sizes@);
            assert(ids0.take(l0) =~= ids0);
            let ids1 = ids0.take(l0 - ns);
            let ids2 = ids1.take(ids1.len() - nr);
            assert(ids2 =~= ids0.take(l0 - ns - nr));
            assert forall|j: int| 0 <= j < ns implies bt.send_descs()[j].id == ids0[l0 - 1 - j] by {}
            assert forall|j: int| 0 <= j < nr implies bt.recv_descs()[j].id == ids0[l0 - ns - 1
                - j] by {
                assert(ds_recv@[j].id == ids1[ids1.len() - 1 - j]);
            }
            if any_ind {
                assert(ctrl.unwrap().id == ids0[l0 - ns - nr - 1]) by {
                    assert(ctrl.unwrap().id == ids2[ids2.len() - 1]);
                }
            }
            let n = Self::needed_ids(send, recv);
            assert(self.mem_pool.ids() =~= ids0.take(l0 - n));
            assert(Self::side_built(bt.send_buff, send, !any_ind));
            assert(Self::side_built(bt.recv_buff, recv, !any_ind));
            Self::lemma_prep_core(pre, *self, send, recv, bt, ctrl, !any_ind);
            assert(Self::spec_prepped(pre, *self, send, recv, bt));
        }
        Ok(bt)
    }

    /// What a failing transfer preparation tells: as the request
    /// check, with a caller buffer of the wrong total length reported
    /// as `BufferSizeWrong` of that length before anything is drawn.
    pub open spec fn spec_prep_xfer_error(
        pre: PackedVq,
        send: Option<BuffSpec>,
        recv: Option<BuffSpec>,
        slen: int,
        rlen: int,
        arena_short: bool,
        e: VirtqError,
    ) -> bool {
        match e {
            VirtqError::BufferSizeWrong(l) => {
                &&& (send is Some || recv is Some)
                &&& !Self::indirect_mixed(send, recv)
                &&& (Self::any_indirect(send, recv) ==> feature_is_set(
                    pre.features,
                    F_INDIRECT_DESC,
                ))
                &&& if !Self::specs_valid(send, recv) {
                    l == 0
                } else if send is Some && slen != seq_sum(send.unwrap().seg_sizes()) {
                    l == slen
                } else {
                    &&& recv is Some
                    &&& rlen != seq_sum(recv.unwrap().seg_sizes())
                    &&& l == rlen
                }
            },
            VirtqError::NoDescrAvail => {
                &&& (send is Some ==> slen == seq_sum(send.unwrap().seg_sizes()))
                &&& (recv is Some ==> rlen == seq_sum(recv.unwrap().seg_sizes()))
                &&& Self::prep_args_ok(pre.features, send, recv)
                &&& Self::needed_ids(send, recv) > pre.mem_pool.ids().len()
            },
            VirtqError::AllocationError => {
                &&& (send is Some ==> slen == seq_sum(send.unwrap().seg_sizes()))
                &&& (recv is Some ==> rlen == seq_sum(recv.unwrap().seg_sizes()))
                &&& Self::prep_args_ok(pre.features, send, recv)
                &&& Self::needed_ids(send, recv) <= pre.mem_pool.ids().len()
                &&& arena_short
            },
            _ => Self::spec_prep_error(pre, send, recv, e),
        }
    }

    /// Prepares a transfer from caller data: the data is copied into
    /// fresh tracked allocations of the requested shape, and the
    /// resulting token is reusable and ready to dispatch. Each side's
    /// data must add up to exactly its requested sizes, else
    /// `BufferSizeWrong` of that length comes back and nothing is
    /// drawn.
    pub fn prep_transfer(
        &mut self,
        send: Option<(&[u8], BuffSpec)>,
        recv: Option<(&[u8], BuffSpec)>,
    ) -> (r: Result<TransferToken, VirtqError>)
        requires
            old(self).wf(),
        ensures
            final(self).wf(),
            final(self).descr_ring == old(self).descr_ring,
            final(self).size == old(self).size,
            final(self).index == old(self).index,
            final(self).features == old(self).features,
            final(self).finished == old(self).finished,
            final(self).mem_pool.size == old(self).mem_pool.size,
            ({
                let sspec = match send {
                    Some((d, sp)) => Some(sp),
                    None => None,
                };
                let rspec = match recv {
                    Some((d, sp)) => Some(sp),
                    None => None,
                };
                let slen = match send {
                    Some((d, sp)) => d@.len() as int,
                    None => 0,
                };
                let rlen = match recv {
                    Some((d, sp)) => d@.len() as int,
                    None => 0,
                };
                match r {
                    Ok(tkn) => {
                        &&& tkn.state is Ready
                        &&& !tkn.await_queue
                        &&& (sspec is Some ==> slen == seq_sum(sspec.unwrap().seg_sizes()))
                        &&& (rspec is Some ==> rlen == seq_sum(rspec.unwrap().seg_sizes()))
                        &&& Self::spec_prepped(
                            *old(self),
                            *final(self),
                            sspec,
                            rspec,
                            tkn.buff_tkn,
                        )
                    },
                    Err(e) => final(self).mem_pool.unchanged_from(old(self).mem_pool)
                        && Self::spec_prep_xfer_error(
                        *old(self),
                        sspec,
                        rspec,
                        slen,
                        rlen,
                        Self::needed_arena(sspec, rspec) > ARENA_CAPACITY - old(
                            self,
                        ).mem_pool.arena_used,
                        e,
                    ),
                }
            }),
    {
        let (s_len, s_spec): (usize, Option<BuffSpec>) = match send {
            Some((d, sp)) => (d.len(), Some(sp)),
            None => (0, None),
        };
        let (r_len, r_spec): (usize, Option<BuffSpec>) = match recv {
            Some((d, sp)) => (d.len(), Some(sp)),
            None => (0, None),
        };
        // The request checks of `prep_buffer`, in the same order, so
        // that a length mismatch is reported before anything is
        // drawn.
        if s_spec.is_none() && r_spec.is_none() {
            return Err(VirtqError::BufferNotSpecified);
        }
        let send_ind = match &s_spec {
            Some(BuffSpec::Indirect(_)) => true,
            _ => false,
        };
        let recv_ind = match &r_spec {
            Some(BuffSpec::Indirect(_)) => true,
            _ => false,
        };
        if s_spec.is_some() && r_spec.is_some() && send_ind != recv_ind {
            return Err(VirtqError::BufferInWithDirect);
        }
        if (send_ind || recv_ind) && (self.features / F_INDIRECT_DESC) % 2 != 1 {
            return Err(VirtqError::FeatureNotNegotiated(F_INDIRECT_DESC));
        }
        let mut send_sizes: Vec<usize> = Vec::new();
        match &s_spec {
            Some(BuffSpec::Single(s)) => {
                send_sizes.push(*s);
            },
            Some(BuffSpec::Multiple(l)) => {
                send_sizes = copy_sizes(l);
            },
            Some(BuffSpec::Indirect(l)) => {
                send_sizes = copy_sizes(l);
            },
            None => (),
        }
        let mut recv_sizes: Vec<usize> = Vec::new();
        match &r_spec {
            Some(BuffSpec::Single(s)) => {
                recv_sizes.push(*s);
            },
            Some(BuffSpec::Multiple(l)) => {
                recv_sizes = copy_sizes(l);
            },
            Some(BuffSpec::Indirect(l)) => {
                recv_sizes = copy_sizes(l);
            },
            None => (),
        }
        proof {
            assert(send_sizes@ =~= Self::side_sizes(s_spec));
            assert(recv_sizes@ =~= Self::side_sizes(r_spec));
        }
        if (s_spec.is_some() && send_sizes.len() == 0) || (r_spec.is_some() && recv_sizes.len()
            == 0) {
            return Err(VirtqError::BufferSizeWrong(0));
        }
        if s_spec.is_some() && !sum_eq(&send_sizes, s_len) {
            return Err(VirtqError::BufferSizeWrong(s_len));
        }
        if r_spec.is_some() && !sum_eq(&recv_sizes, r_len) {
            return Err(VirtqError::BufferSizeWrong(r_len));
        }
        // The shape is settled; draw and build as `prep_buffer`.
        match self.prep_buffer(s_spec, r_spec) {
            Ok(bt) => Ok(TransferToken::new(bt, false)),
            Err(e) => Err(e),
        }
    }

    /// One side of a token built over caller-owned memory: the
    /// requested shape, wrapped without copying, so the chunks walk
    /// the region in order and nothing is owned.
    pub open spec fn raw_side_built(
        buf: Option<Buffer>,
        spec: Option<BuffSpec>,
        region: Option<RawRegion>,
    ) -> bool {
        match (buf, spec) {
            (None, None) => region is None,
            (Some(b), Some(sp)) => {
                &&& region is Some
                &&& (b is Single <==> sp is Single)
                &&& (b is Multiple <==> sp is Multiple)
                &&& (b is Indirect <==> sp is Indirect)
                &&& b.descs().len() == sp.seg_sizes().len()
                &&& forall|i: int|
                    0 <= i < b.descs().len() ==> (#[trigger] b.descs()[i]).len
                        == sp.seg_sizes()[i]
                &&& forall|i: int|
                    0 <= i < b.descs().len() ==> !(#[trigger] b.descs()[i]).dealloc
                &&& forall|i: int|
                    0 <= i < b.descs().len() ==> (#[trigger] b.descs()[i]).addr
                        == region.unwrap().addr + seq_sum_upto(sp.seg_sizes(), i)
                &&& b.spec_len() == seq_sum(sp.seg_sizes())
            },
            _ => false,
        }
    }

    /// What a successful preparation from raw memory built: a
    /// one-shot token wrapping the caller's regions, with only the
    /// identifiers and, for an indirect request, the control table
    /// drawn from the pool.
    pub open spec fn spec_prepped_raw(
        pre: PackedVq,
        post: PackedVq,
        send: Option<BuffSpec>,
        recv: Option<BuffSpec>,
        sreg: Option<RawRegion>,
        rreg: Option<RawRegion>,
        bt: BufferToken,
    ) -> bool {
        let n = Self::needed_ids(send, recv);
        let ind = Self::any_indirect(send, recv);
        &&& Self::prep_args_ok(pre.features, send, recv)
        &&& n <= pre.mem_pool.ids().len()
        &&& Self::ctrl_bytes(send, recv) <= ARENA_CAPACITY - pre.mem_pool.arena_used
        &&& bt.wf()
        &&& bt.fully_identified()
        &&& spec_head_id(bt) != 0
        &&& Self::raw_side_built(bt.send_buff, send, sreg)
        &&& Self::raw_side_built(bt.recv_buff, recv, rreg)
        &&& !bt.ret_send
        &&& !bt.ret_recv
        &&& !bt.reusable
        &&& (ind ==> {
            let c = spec_ctrl_of(bt);
            &&& c.id != 0
            &&& c.dealloc
            &&& c.len == Self::ctrl_bytes(send, recv)
            &&& (send is Some && recv is Some ==> {
                let rc = bt.recv_buff.unwrap().spec_ctrl_desc().unwrap();
                &&& rc.id == 0
                &&& !rc.dealloc
                &&& rc.addr == c.addr
                &&& rc.len == c.len
            })
        })
        &&& bt.held_ids() == popped_ids(pre.mem_pool.ids(), n)
        &&& post.mem_pool.ids() == pre.mem_pool.ids().take(pre.mem_pool.ids().len() - n)
        &&& post.mem_pool.arena_used == pre.mem_pool.arena_used + Self::ctrl_bytes(send, recv)
        &&& post.token_ids_fresh(bt)
    }

    /// Prepares a one-shot transfer over caller-owned memory at
    /// stable addresses: each side's region is segmented by its
    /// requested sizes and wrapped for the device without copying.
    /// The built token owns no storage and is not reusable. A
    /// mismatched region length is reported as `BufferSizeWrong` of
    /// that length before anything is drawn.
    #[verifier::rlimit(100)]
    pub fn prep_transfer_from_raw(
        &mut self,
        send: Option<(RawRegion, BuffSpec)>,
        recv: Option<(RawRegion, BuffSpec)>,
    ) -> (r: Result<TransferToken, VirtqError>)
        requires
            old(self).wf(),
            match send {
                Some((reg, sp)) => reg.len <= u32::MAX && reg.addr + reg.len <= u64::MAX,
                None => true,
            },
            match recv {
                Some((reg, sp)) => reg.len <= u32::MAX && reg.addr + reg.len <= u64::MAX,
                None => true,
            },
        ensures
            final(self).wf(),
            final(self).descr_ring == old(self).descr_ring,
            final(self).size == old(self).size,
            final(self).index == old(self).index,
            final(self).features == old(self).features,
            final(self).finished == old(self).finished,
            final(self).mem_pool.size == old(self).mem_pool.size,
            ({
                let sspec = match send {
                    Some((reg, sp)) => Some(sp),
                    None => None,
                };
                let rspec = match recv {
                    Some((reg, sp)) => Some(sp),
                    None => None,
                };
                let sreg = match send {
                    Some((reg, sp)) => Some(reg),
                    None => None,
                };
                let rreg = match recv {
                    Some((reg, sp)) => Some(reg),
                    None => None,
                };
                let slen = match send {
                    Some((reg, sp)) => reg.len as int,
                    None => 0,
                };
                let rlen = match recv {
                    Some((reg, sp)) => reg.len as int,
                    None => 0,
                };
                match r {
                    Ok(tkn) => {
                        &&& tkn.state is Ready
                        &&& !tkn.await_queue
                        &&& Self::spec_prepped_raw(
                            *old(self),
                            *final(self),
                            sspec,
                            rspec,
                            sreg,
                            rreg,
                            tkn.buff_tkn,
                        )
                    },
                    Err(e) => final(self).mem_pool.unchanged_from(old(self).mem_pool)
                        && Self::spec_prep_xfer_error(
                        *old(self),
                        sspec,
                        rspec,
                        slen,
                        rlen,
                        Self::ctrl_bytes(sspec, rspec) > ARENA_CAPACITY - old(
                            self,
                        ).mem_pool.arena_used,
                        e,
                    ),
                }
            }),
    {
        let ghost pre = *self;
        let (s_reg, s_spec): (RawRegion, Option<BuffSpec>) = match send {
            Some((reg, sp)) => (reg, Some(sp)),
            None => (RawRegion { addr: 0, len: 0 }, None),
        };
        let (r_reg, r_spec): (RawRegion, Option<BuffSpec>) = match recv {
            Some((reg, sp)) => (reg, Some(sp)),
            None => (RawRegion { addr: 0, len: 0 }, None),
        };
        let send_present = s_spec.is_some();
        let recv_present = r_spec.is_some();
        if !send_present && !recv_present {
            return Err(VirtqError::BufferNotSpecified);
        }
        let send_ind = match &s_spec {
            Some(BuffSpec::Indirect(_)) => true,
            _ => false,
        };
        let recv_ind = match &r_spec {
            Some(BuffSpec::Indirect(_)) => true,
            _ => false,
        };
        if send_present && recv_present && send_ind != recv_ind {
            return Err(VirtqError::BufferInWithDirect);
        }
        let any_ind = send_ind || recv_ind;
        if any_ind && (self.features / F_INDIRECT_DESC) % 2 != 1 {
            return Err(VirtqError::FeatureNotNegotiated(F_INDIRECT_DESC));
        }
        let mut send_sizes: Vec<usize> = Vec::new();
        match &s_spec {
            Some(BuffSpec::Single(s)) => {
                send_sizes.push(*s);
            },
            Some(BuffSpec::Multiple(l)) => {
                send_sizes = copy_sizes(l);
            },
            Some(BuffSpec::Indirect(l)) => {
                send_sizes = copy_sizes(l);
            },
            None => (),
        }
        let mut recv_sizes: Vec<usize> = Vec::new();
        match &r_spec {
            Some(BuffSpec::Single(s)) => {
                recv_sizes.push(*s);
            },
            Some(BuffSpec::Multiple(l)) => {
                recv_sizes = copy_sizes(l);
            },
            Some(BuffSpec::Indirect(l)) => {
                recv_sizes = copy_sizes(l);
            },
            None => (),
        }
        proof {
            assert(send_sizes@ =~= Self::side_sizes(s_spec));
            assert(recv_sizes@ =~= Self::side_sizes(r_spec));
        }
        if (send_present && send_sizes.len() == 0) || (recv_present && recv_sizes.len() == 0) {
            return Err(VirtqError::BufferSizeWrong(0));
        }
        if send_present && !sum_eq(&send_sizes, s_reg.len) {
            return Err(VirtqError::BufferSizeWrong(s_reg.len));
        }
        if recv_present && !sum_eq(&recv_sizes, r_reg.len) {
            return Err(VirtqError::BufferSizeWrong(r_reg.len));
        }
        let n_s = send_sizes.len();
        let n_r = recv_sizes.len();
        let extra: usize = if any_ind {
            1
        } else {
            0
        };
        let free = self.mem_pool.free_count();
        if n_s > free || n_r > free - n_s || extra > free - n_s - n_r {
            return Err(VirtqError::NoDescrAvail);
        }
        let ctrl_b: usize = if any_ind {
            16 * (n_s + n_r)
        } else {
            0
        };
        let remaining = ARENA_CAPACITY - self.mem_pool.arena_used;
        if ctrl_b > remaining {
            return Err(VirtqError::AllocationError);
        }
        // Draw the identifiers: send payloads, receive payloads, then
        // the control descriptor from the arena.
        let ds_send: Vec<MemDescr> = if send_present {
            pull_raw_descs(&mut self.mem_pool, &send_sizes, s_reg.addr)
        } else {
            Vec::new()
        };
        let ds_recv: Vec<MemDescr> = if recv_present {
            pull_raw_descs(&mut self.mem_pool, &recv_sizes, r_reg.addr)
        } else {
            Vec::new()
        };
        let ctrl: Option<MemDescr> = if any_ind {
            proof {
                assert(MemPool::spec_align_up(ctrl_b as int) == ctrl_b as int) by {
                    assert((16 * (n_s + n_r)) % 8 == 0) by (nonlinear_arith);
                }
            }
            match self.mem_pool.pull(ctrl_b) {
                Ok(d) => Some(d),
                Err(_) => {
                    proof {
                        assert(false);
                    }
                    return Err(VirtqError::AllocationError);
                },
            }
        } else {
            None
        };
        let send_buff: Option<Buffer> = if send_present {
            if send_ind {
                let c = match &ctrl {
                    Some(c) => *c,
                    None => MemDescr { addr: 0, len: 0, id: 0, dealloc: false },
                };
                Some(
                    Buffer::Indirect {
                        desc_lst: ds_send,
                        ctrl_desc: c,
                        len: s_reg.len,
                        next_write: 0,
                    },
                )
            } else {
                match &s_spec {
                    Some(BuffSpec::Single(_)) => Some(
                        Buffer::Single { desc_lst: ds_send, len: s_reg.len, next_write: 0 },
                    ),
                    _ => Some(
                        Buffer::Multiple { desc_lst: ds_send, len: s_reg.len, next_write: 0 },
                    ),
                }
            }
        } else {
            None
        };
        let recv_buff: Option<Buffer> = if recv_present {
            if recv_ind {
                let c = match &ctrl {
                    Some(c) => *c,
                    None => MemDescr { addr: 0, len: 0, id: 0, dealloc: false },
                };
                let rc = if send_present {
                    c.no_dealloc_clone()
                } else {
                    c
                };
                Some(
                    Buffer::Indirect {
                        desc_lst: ds_recv,
                        ctrl_desc: rc,
                        len: r_reg.len,
                        next_write: 0,
                    },
                )
            } else {
                match &r_spec {
                    Some(BuffSpec::Single(_)) => Some(
                        Buffer::Single { desc_lst: ds_recv, len: r_reg.len, next_write: 0 },
                    ),
                    _ => Some(
                        Buffer::Multiple { desc_lst: ds_recv, len: r_reg.len, next_write: 0 },
                    ),
                }
            }
        } else {
            None
        };
        let bt = BufferToken {
            send_buff,
            recv_buff,
            ret_send: false,
            ret_recv: false,
            reusable: false,
        };
        proof {
            let ids0 = pre.mem_pool.ids();
            let l0 = ids0.len() as int;
            let ns = n_s as int;
            let nr = n_r as int;
            assert(ids0.take(l0) =~= ids0);
            let ids1 = ids0.take(l0 - ns);
            let ids2 = ids1.take(ids1.len() - nr);
            assert(ids2 =~= ids0.take(l0 - ns - nr));
            assert forall|j: int| 0 <= j < ns implies bt.send_descs()[j].id == ids0[l0 - 1 - j] by {}
            assert forall|j: int| 0 <= j < nr implies bt.recv_descs()[j].id == ids0[l0 - 1 - ns
                - j] by {
                assert(ds_recv@[j].id == ids1[ids1.len() - 1 - j]);
            }
            if any_ind {
                assert(ctrl.unwrap().id == ids0[l0 - 1 - ns - nr]) by {
                    assert(ctrl.unwrap().id == ids2[ids2.len() - 1]);
                }
            }
            let n = Self::needed_ids(s_spec, r_spec);
            assert(self.mem_pool.ids() =~= ids0.take(l0 - n));
            assert forall|j: int| 0 <= j < ns implies bt.send_descs()[j].len <= u32::MAX by {
                lemma_seq_sum_mono(send_sizes@, 0, j);
                lemma_seq_sum_mono(send_sizes@, j + 1, send_sizes@.len() as int);
            }
            assert forall|j: int| 0 <= j < nr implies bt.recv_descs()[j].len <= u32::MAX by {
                lemma_seq_sum_mono(recv_sizes@, 0, j);
                lemma_seq_sum_mono(recv_sizes@, j + 1, recv_sizes@.len() as int);
            }
            assert(Self::side_built(bt.send_buff, s_spec, false));
            assert(Self::side_built(bt.recv_buff, r_spec, false));
            Self::lemma_prep_core(pre, *self, s_spec, r_spec, bt, ctrl, false);
            assert(Self::raw_side_built(bt.send_buff, s_spec, if send_present {
                Some(s_reg)
            } else {
                None
            }));
            assert(Self::raw_side_built(bt.recv_buff, r_spec, if recv_present {
                Some(r_reg)
            } else {
                None
            }));
            assert(Self::spec_prepped_raw(
                pre,
                *self,
                s_spec,
                r_spec,
                if send_present {
                    Some(s_reg)
                } else {
                    None
                },
                if recv_present {
                    Some(r_reg)
                } else {
                    None
                },
                bt,
            ));
        }
        Ok(TransferToken::new(bt, false))
    }

    /// Once the draws of a preparation are done and the token is
    /// assembled, the queue is well-formed again and the token is of
    /// the promised shape with exactly the drawn identifiers.
    #[verifier::rlimit(100)]
    proof fn lemma_prep_core(
        pre: PackedVq,
        post: PackedVq,
        send: Option<BuffSpec>,
        recv: Option<BuffSpec>,
        bt: BufferToken,
        ctrl: Option<MemDescr>,
        payload_dealloc: bool,
    )
        requires
            pre.wf(),
            Self::prep_args_ok(pre.features, send, recv),
            Self::needed_ids(send, recv) <= pre.mem_pool.ids().len(),
            post.descr_ring == pre.descr_ring,
            post.features == pre.features,
            post.size == pre.size,
            post.mem_pool.wf(),
            post.mem_pool.size == pre.mem_pool.size,
            post.mem_pool.ids() == pre.mem_pool.ids().take(
                pre.mem_pool.ids().len() - Self::needed_ids(send, recv),
            ),
            Self::side_built(bt.send_buff, send, payload_dealloc),
            Self::side_built(bt.recv_buff, recv, payload_dealloc),
            forall|j: int|
                0 <= j < Self::side_sizes(send).len() ==> (#[trigger] bt.send_descs()[j]).id
                    == pre.mem_pool.ids()[pre.mem_pool.ids().len() - 1 - j],
            forall|j: int|
                0 <= j < Self::side_sizes(recv).len() ==> (#[trigger] bt.recv_descs()[j]).id
                    == pre.mem_pool.ids()[pre.mem_pool.ids().len() - 1 - Self::side_sizes(
                    send,
                ).len() - j],
            forall|j: int|
                0 <= j < Self::side_sizes(send).len() ==> (#[trigger] bt.send_descs()[j]).len
                    <= u32::MAX,
            forall|j: int|
                0 <= j < Self::side_sizes(recv).len() ==> (#[trigger] bt.recv_descs()[j]).len
                    <= u32::MAX,
            Self::any_indirect(send, recv) ==> {
                let c = ctrl.unwrap();
                &&& ctrl is Some
                &&& c.id == pre.mem_pool.ids()[pre.mem_pool.ids().len() - 1 - Self::side_sizes(
                    send,
                ).len() - Self::side_sizes(recv).len()]
                &&& c.dealloc
                &&& c.len == Self::ctrl_bytes(send, recv)
                &&& c.len <= u32::MAX
                &&& (bt.send_buff is Some ==> bt.send_buff.unwrap().spec_ctrl_desc() == Some(c))
                &&& (bt.send_buff is Some && bt.recv_buff is Some
                    ==> bt.recv_buff.unwrap().spec_ctrl_desc() == Some(c.spec_no_dealloc_clone()))
                &&& (bt.send_buff is None ==> bt.recv_buff.unwrap().spec_ctrl_desc() == Some(c))
            },
            !Self::any_indirect(send, recv) ==> {
                &&& (bt.send_buff is Some ==> !bt.send_buff.unwrap().is_indirect())
                &&& (bt.recv_buff is Some ==> !bt.recv_buff.unwrap().is_indirect())
            },
            Self::any_indirect(send, recv) ==> {
                &&& (bt.send_buff is Some ==> bt.send_buff.unwrap().is_indirect())
                &&& (bt.recv_buff is Some ==> bt.recv_buff.unwrap().is_indirect())
            },
        ensures
            post.wf(),
            bt.wf(),
            bt.fully_identified(),
            spec_head_id(bt) != 0,
            bt.held_ids() == popped_ids(pre.mem_pool.ids(), Self::needed_ids(send, recv)),
            post.token_ids_fresh(bt),
    {
        let ids0 = pre.mem_pool.ids();
        let l0 = ids0.len() as int;
        let ns = Self::side_sizes(send).len() as int;
        let nr = Self::side_sizes(recv).len() as int;
        let ind = Self::any_indirect(send, recv);
        let n = Self::needed_ids(send, recv);
        let held = bt.held_ids();
        let seg_a = if bt.send_buff is Some {
            bt.send_buff.unwrap().held_payload_ids()
        } else {
            Seq::<u16>::empty()
        };
        let seg_b = if bt.recv_buff is Some {
            bt.recv_buff.unwrap().held_payload_ids()
        } else {
            Seq::<u16>::empty()
        };
        let seg_c = if bt.send_buff is Some {
            bt.send_buff.unwrap().held_ctrl_ids()
        } else {
            Seq::<u16>::empty()
        };
        let seg_d = if bt.recv_buff is Some {
            bt.recv_buff.unwrap().held_ctrl_ids()
        } else {
            Seq::<u16>::empty()
        };
        assert(seg_a.len() == ns);
        assert(seg_b.len() == nr);
        assert forall|j: int| 0 <= j < ns implies seg_a[j] == ids0[l0 - 1 - j] by {
            assert(seg_a[j] == bt.send_descs()[j].id);
        }
        assert forall|j: int| 0 <= j < nr implies seg_b[j] == ids0[l0 - ns - 1 - j] by {
            assert(seg_b[j] == bt.recv_descs()[j].id);
        }
        if ind {
            let c = ctrl.unwrap();
            assert(c.id >= 1) by {
                assert(1 <= ids0[l0 - 1 - ns - nr]);
            }
            if bt.send_buff is Some && bt.recv_buff is Some {
                assert(seg_c =~= seq![c.id]);
                assert(seg_d =~= Seq::<u16>::empty());
            } else if bt.send_buff is Some {
                assert(seg_c =~= seq![c.id]);
                assert(seg_d =~= Seq::<u16>::empty());
            } else {
                assert(seg_c =~= Seq::<u16>::empty());
                assert(seg_d =~= seq![c.id]);
            }
            assert((seg_c + seg_d) =~= seq![c.id]);
        } else {
            assert(seg_c =~= Seq::<u16>::empty());
            assert(seg_d =~= Seq::<u16>::empty());
        }
        assert(held.len() == n);
        assert(held =~= popped_ids(ids0, n)) by {
            assert forall|j: int| 0 <= j < n implies held[j] == ids0[l0 - 1 - j] by {
                if j < ns {
                    assert(held[j] == seg_a[j]);
                } else if j < ns + nr {
                    assert(held[j] == seg_b[j - ns]);
                } else {
                    assert(held[j] == (seg_c + seg_d)[0]);
                }
            }
        }
        assert(held.no_duplicates()) by {
            assert forall|a: int, b: int|
                0 <= a < held.len() && 0 <= b < held.len() && a != b implies held[a] != held[b] by {
                assert(held[a] == ids0[l0 - 1 - a]);
                assert(held[b] == ids0[l0 - 1 - b]);
            }
        }
        assert forall|x: int| 0 <= x < held.len() implies 1 <= #[trigger] held[x]
            <= post.mem_pool.size by {
            assert(held[x] == ids0[l0 - 1 - x]);
        }
        assert forall|x: int| 0 <= x < held.len() implies !post.mem_pool.ids().contains(
            #[trigger] held[x],
        ) by {
            if post.mem_pool.ids().contains(held[x]) {
                let w = choose|w: int|
                    0 <= w < post.mem_pool.ids().len() && post.mem_pool.ids()[w] == held[x];
                assert(ids0[w] == held[x]);
                assert(ids0[l0 - 1 - x] == held[x]);
                assert(w != l0 - 1 - x);
            }
        }
        assert forall|i: int|
            0 <= i < post.descr_ring.inflight_count() implies seqs_disjoint(
            held,
            (#[trigger] post.descr_ring.entry(i)).tkn.buff_tkn.held_ids(),
        ) by {
            assert(pre.descr_ring.entry_ids_ok(i, pre.mem_pool));
            let h = post.descr_ring.entry(i).tkn.buff_tkn.held_ids();
            assert forall|x: u16| held.contains(x) implies !h.contains(x) by {
                let j = choose|j: int| 0 <= j < held.len() && held[j] == x;
                assert(held[j] == ids0[l0 - 1 - j]);
                assert(ids0.contains(x)) by {
                    assert(ids0[l0 - 1 - j] == x);
                }
                if h.contains(x) {
                    let y = choose|y: int| 0 <= y < h.len() && h[y] == x;
                    assert(!pre.mem_pool.ids().contains(h[y]));
                }
            }
        }
        assert forall|i: int|
            0 <= i < post.descr_ring.inflight_count() implies post.descr_ring.entry_ids_ok(
            i,
            post.mem_pool,
        ) by {
            assert(pre.descr_ring.entry_ids_ok(i, pre.mem_pool));
            let h = post.descr_ring.entry(i).tkn.buff_tkn.held_ids();
            assert forall|x: int| 0 <= x < h.len() implies !post.mem_pool.ids().contains(
                #[trigger] h[x],
            ) by {
                if post.mem_pool.ids().contains(h[x]) {
                    let w = choose|w: int|
                        0 <= w < post.mem_pool.ids().len() && post.mem_pool.ids()[w] == h[x];
                    assert(ids0[w] == h[x]);
                    assert(pre.mem_pool.ids().contains(h[x])) by {
                        assert(ids0[w] == h[x]);
                    }
                }
            }
        }
        assert(bt.wf()) by {
            if bt.send_buff is Some {
                let b = bt.send_buff.unwrap();
                assert(b.descs() == bt.send_descs());
                assert forall|i: int| 0 <= i < b.descs().len() implies #[trigger] b.descs()[i].len
                    <= u32::MAX by {
                    assert(bt.send_descs()[i].len <= u32::MAX);
                }
                if b is Indirect {
                    assert(b.spec_ctrl_desc().unwrap().len == ctrl.unwrap().len);
                }
            }
            if bt.recv_buff is Some {
                let b = bt.recv_buff.unwrap();
                assert(b.descs() == bt.recv_descs());
                assert forall|i: int| 0 <= i < b.descs().len() implies #[trigger] b.descs()[i].len
                    <= u32::MAX by {
                    assert(bt.recv_descs()[i].len <= u32::MAX);
                }
                if b is Indirect {
                    assert(b.spec_ctrl_desc().unwrap().len == ctrl.unwrap().len);
                }
            }
        }
        assert(bt.fully_identified()) by {
            if bt.send_buff is Some {
                let b = bt.send_buff.unwrap();
                assert(b.descs() == bt.send_descs());
                assert forall|i: int| 0 <= i < b.descs().len() implies #[trigger] b.descs()[i].id
                    != 0 by {
                    assert(bt.send_descs()[i].id == ids0[l0 - 1 - i]);
                }
            }
            if bt.recv_buff is Some {
                let b = bt.recv_buff.unwrap();
                assert(b.descs() == bt.recv_descs());
                assert forall|i: int| 0 <= i < b.descs().len() implies #[trigger] b.descs()[i].id
                    != 0 by {
                    assert(bt.recv_descs()[i].id == ids0[l0 - 1 - ns - i]);
                }
            }
        }
        assert(spec_head_id(bt) != 0) by {
            if bt.is_indirect() {
                assert(spec_ctrl_of(bt).id == ctrl.unwrap().id);
            } else if bt.send_descs().len() > 0 {
                assert(bt.send_descs()[0].id == ids0[l0 - 1]);
            } else {
                assert(bt.recv_descs()[0].id == ids0[l0 - ns - 1]);
            }
        }
    }

    /// The entries of a packed indirect control table for the given
    /// chains: device-readable entries first, then device-writable
    /// ones carrying `WRITE`; packed tables chain by position, so no
    /// entry carries `NEXT`. Fails with `BufferNotSpecified` when
    /// neither side is given.
    #[verifier::loop_isolation(false)]
    pub fn create_indirect_ctrl(send: Option<&Vec<MemDescr>>, recv: Option<&Vec<MemDescr>>) -> (r:
        Result<Vec<Descriptor>, VirtqError>)
        requires
            (match send {
                Some(s) => forall|i: int| 0 <= i < s@.len() ==> #[trigger] s@[i].len <= u32::MAX,
                None => true,
            }),
            (match recv {
                Some(s) => forall|i: int| 0 <= i < s@.len() ==> #[trigger] s@[i].len <= u32::MAX,
                None => true,
            }),
        ensures
            match r {
                Ok(table) => {
                    let sd = match send {
                        Some(s) => s@,
                        None => Seq::empty(),
                    };
                    let rd = match recv {
                        Some(s) => s@,
                        None => Seq::empty(),
                    };
                    &&& (send is Some || recv is Some)
                    &&& table@.len() == sd.len() + rd.len()
                    &&& forall|i: int|
                        0 <= i < sd.len() ==> #[trigger] table@[i] == (Descriptor {
                            address: sd[i].addr,
                            len: sd[i].len as u32,
                            buff_id: 0,
                            flags: 0,
                        })
                    &&& forall|i: int|
                        sd.len() <= i < sd.len() + rd.len() ==> #[trigger] table@[i] == (Descriptor {
                            address: rd[i - sd.len()].addr,
                            len: rd[i - sd.len()].len as u32,
                            buff_id: 0,
                            flags: VIRTQ_DESC_F_WRITE,
                        })
                },
                Err(VirtqError::BufferNotSpecified) => send is None && recv is None,
                Err(_) => false,
            },
    {
        if send.is_none() && recv.is_none() {
            return Err(VirtqError::BufferNotSpecified);
        }
        let mut table: Vec<Descriptor> = Vec::new();
        match send {
            Some(s) => {
                let mut i: usize = 0;
                while i < s.len()
                    invariant
                        i <= s@.len(),
                        table@.len() == i,
                        forall|j: int|
                            0 <= j < i ==> #[trigger] table@[j] == (Descriptor {
                                address: s@[j].addr,
                                len: s@[j].len as u32,
                                buff_id: 0,
                                flags: 0,
                            }),
                    decreases s@.len() - i,
                {
                    table.push(Descriptor::new(s[i].addr, s[i].len as u32, 0, 0));
                    i = i + 1;
                }
            },
            None => (),
        }
        let ghost sd_len = table@.len();
        match recv {
            Some(s) => {
                let mut i: usize = 0;
                while i < s.len()
                    invariant
                        i <= s@.len(),
                        table@.len() == sd_len + i,
                        forall|j: int|
                            sd_len <= j < sd_len + i ==> #[trigger] table@[j] == (Descriptor {
                                address: s@[j - sd_len].addr,
                                len: s@[j - sd_len].len as u32,
                                buff_id: 0,
                                flags: VIRTQ_DESC_F_WRITE,
                            }),
                        forall|j: int|
                            0 <= j < sd_len ==> #[trigger] table@[j] == (Descriptor {
                                address: (match send {
                                    Some(sd) => sd@,
                                    None => Seq::empty(),
                                })[j].addr,
                                len: (match send {
                                    Some(sd) => sd@,
                                    None => Seq::empty(),
                                })[j].len as u32,
                                buff_id: 0,
                                flags: 0,
                            }),
                    decreases s@.len() - i,
                {
                    table.push(Descriptor::new(s[i].addr, s[i].len as u32, 0, VIRTQ_DESC_F_WRITE));
                    i = i + 1;
                }
            },
            None => (),
        }
        Ok(table)
    }
}

} // verus!
