//! Buffer tokens: the caller-visible handles for queue transfers.
//!
//! A `BufferToken` bundles a send-side (device-readable) and/or a
//! receive-side (device-writable) descriptor chain; a `TransferToken`
//! wraps it with the in-flight state while a transfer runs. Buffers
//! come in three shapes: one chunk, several chunks, or several chunks
//! published through a single indirect control descriptor.

use vstd::prelude::*;

use crate::mempool::MemDescr;

verus! {

/// Requested shape of one side of a buffer token, sizes in bytes.
#[derive(Clone, Debug)]
pub enum BuffSpec {
    /// One contiguous chunk of the given size.
    Single(usize),
    /// One chunk per listed size.
    Multiple(Vec<usize>),
    /// One chunk per listed size, published through an indirect
    /// control table that takes a single slot in the main ring.
    Indirect(Vec<usize>),
}

impl BuffSpec {
    /// The requested chunk sizes.
    pub open spec fn seg_sizes(self) -> Seq<usize> {
        match self {
            BuffSpec::Single(s) => seq![s],
            BuffSpec::Multiple(l) => l@,
            BuffSpec::Indirect(l) => l@,
        }
    }

    /// Whether the shape asks for an indirect control table.
    pub open spec fn is_indirect(self) -> bool {
        self is Indirect
    }

    /// A shape must name at least one chunk.
    pub open spec fn valid(self) -> bool {
        self.seg_sizes().len() >= 1
    }

    /// Total bytes of all chunks.
    pub open spec fn total(self) -> int {
        seq_sum(self.seg_sizes())
    }
}

/// Sum of the first `i` entries of a size list, in bytes.
pub open spec fn seq_sum_upto(s: Seq<usize>, i: int) -> int
    decreases i,
{
    if i <= 0 {
        0
    } else {
        seq_sum_upto(s, i - 1) + s[i - 1]
    }
}

/// Sum of a size list, in bytes.
pub open spec fn seq_sum(s: Seq<usize>) -> int {
    seq_sum_upto(s, s.len() as int)
}

/// Partial sums grow with the index.
pub proof fn lemma_seq_sum_mono(s: Seq<usize>, i: int, j: int)
    requires
        0 <= i <= j <= s.len(),
    ensures
        seq_sum_upto(s, i) <= seq_sum_upto(s, j),
    decreases j - i,
{
    if i < j {
        lemma_seq_sum_mono(s, i, j - 1);
    }
}

/// State of an in-flight transfer.
#[derive(Copy, Clone, Debug, PartialEq, Eq, Structural)]
pub enum TransferState {
    /// Built but not yet dispatched.
    Ready,
    /// Published to the device and awaiting completion.
    Processing,
    /// Retired by the device.
    Finished,
}

/// One side of a buffer token: the descriptor chain of a transfer.
#[derive(Clone, Debug)]
pub enum Buffer {
    /// A single contiguous chunk.
    Single { desc_lst: Vec<MemDescr>, len: usize, next_write: usize },
    /// A chain of chunks, one main-ring slot each.
    Multiple { desc_lst: Vec<MemDescr>, len: usize, next_write: usize },
    /// A chain of chunks published through `ctrl_desc`, whose memory
    /// holds the indirect control table.
    Indirect { desc_lst: Vec<MemDescr>, ctrl_desc: MemDescr, len: usize, next_write: usize },
}

impl Buffer {
    /// The payload descriptors of this side.
    pub open spec fn descs(self) -> Seq<MemDescr> {
        match self {
            Buffer::Single { desc_lst, .. } => desc_lst@,
            Buffer::Multiple { desc_lst, .. } => desc_lst@,
            Buffer::Indirect { desc_lst, .. } => desc_lst@,
        }
    }

    /// Logical length in bytes of this side.
    pub open spec fn spec_len(self) -> usize {
        match self {
            Buffer::Single { len, .. } => len,
            Buffer::Multiple { len, .. } => len,
            Buffer::Indirect { len, .. } => len,
        }
    }

    /// Whether the side is published through an indirect table.
    pub open spec fn is_indirect(self) -> bool {
        self is Indirect
    }

    /// The control descriptor, for an indirect side.
    pub open spec fn spec_ctrl_desc(self) -> Option<MemDescr> {
        match self {
            Buffer::Indirect { ctrl_desc, .. } => Some(ctrl_desc),
            _ => None,
        }
    }

    /// Identifiers held by this side's payload descriptors, in chain
    /// order.
    pub open spec fn held_payload_ids(self) -> Seq<u16> {
        self.descs().map_values(|d: MemDescr| d.id)
    }

    /// Every payload descriptor of this side carries a pool
    /// identifier.
    pub open spec fn fully_identified(self) -> bool {
        forall|i: int| 0 <= i < self.descs().len() ==> #[trigger] self.descs()[i].id != 0
    }

    /// Identifier held by this side's control descriptor, if any.
    pub open spec fn held_ctrl_ids(self) -> Seq<u16> {
        match self.spec_ctrl_desc() {
            Some(c) => if c.id != 0 {
                seq![c.id]
            } else {
                Seq::empty()
            },
            None => Seq::empty(),
        }
    }

    /// Well-formedness: the shape matches the descriptor count and
    /// every chunk fits a 32-bit wire length.
    pub open spec fn wf(self) -> bool {
        &&& (self is Single ==> self.descs().len() == 1)
        &&& self.descs().len() >= 1
        &&& forall|i: int| 0 <= i < self.descs().len() ==> #[trigger] self.descs()[i].len <= u32::MAX
        &&& (self is Indirect ==> self.spec_ctrl_desc().unwrap().len <= u32::MAX)
    }

    /// The payload descriptors of this side, in chain order.
    pub fn as_slice(&self) -> (r: &Vec<MemDescr>)
        ensures
            r@ == self.descs(),
    {
        match self {
            Buffer::Single { desc_lst, .. } => desc_lst,
            Buffer::Multiple { desc_lst, .. } => desc_lst,
            Buffer::Indirect { desc_lst, .. } => desc_lst,
        }
    }

    /// The control descriptor when the side is indirect.
    pub fn get_ctrl_desc(&self) -> (r: Option<&MemDescr>)
        ensures
            match r {
                Some(c) => self.spec_ctrl_desc() == Some(*c),
                None => self.spec_ctrl_desc() is None,
            },
    {
        match self {
            Buffer::Indirect { ctrl_desc, .. } => Some(ctrl_desc),
            _ => None,
        }
    }

    /// Logical length of this side in bytes.
    pub fn len(&self) -> (r: usize)
        ensures
            r == self.spec_len(),
    {
        match self {
            Buffer::Single { len, .. } => *len,
            Buffer::Multiple { len, .. } => *len,
            Buffer::Indirect { len, .. } => *len,
        }
    }

    /// This buffer with its logical length replaced.
    pub open spec fn spec_with_len(self, l: usize) -> Buffer {
        match self {
            Buffer::Single { desc_lst, len, next_write } => Buffer::Single {
                desc_lst,
                len: l,
                next_write,
            },
            Buffer::Multiple { desc_lst, len, next_write } => Buffer::Multiple {
                desc_lst,
                len: l,
                next_write,
            },
            Buffer::Indirect { desc_lst, ctrl_desc, len, next_write } => Buffer::Indirect {
                desc_lst,
                ctrl_desc,
                len: l,
                next_write,
            },
        }
    }

    /// Truncates the logical length, after the device reported how
    /// many bytes it wrote.
    pub fn restr_len(&mut self, new_len: usize)
        ensures
            *final(self) == old(self).spec_with_len(new_len),
    {
        match self {
            Buffer::Single { len, .. } => *len = new_len,
            Buffer::Multiple { len, .. } => *len = new_len,
            Buffer::Indirect { len, .. } => *len = new_len,
        }
    }
}

/// A caller-visible handle for a transfer's buffers: a send side, a
/// receive side, or both, plus the reuse flags.
#[derive(Clone, Debug)]
pub struct BufferToken {
    /// Device-readable side.
    pub send_buff: Option<Buffer>,
    /// Device-writable side.
    pub recv_buff: Option<Buffer>,
    /// Whether the send side is preserved on completion for reuse.
    pub ret_send: bool,
    /// Whether the receive side is preserved on completion for reuse.
    pub ret_recv: bool,
    /// Whether the token may be dispatched again after completion.
    pub reusable: bool,
}

impl BufferToken {
    /// Whether the token is published through an indirect control
    /// descriptor.
    pub open spec fn is_indirect(self) -> bool {
        ||| (self.send_buff is Some && self.send_buff.unwrap().is_indirect())
        ||| (self.recv_buff is Some && self.recv_buff.unwrap().is_indirect())
    }

    /// Descriptors of the send side, empty when there is none.
    pub open spec fn send_descs(self) -> Seq<MemDescr> {
        match self.send_buff {
            Some(b) => b.descs(),
            None => Seq::empty(),
        }
    }

    /// Descriptors of the receive side, empty when there is none.
    pub open spec fn recv_descs(self) -> Seq<MemDescr> {
        match self.recv_buff {
            Some(b) => b.descs(),
            None => Seq::empty(),
        }
    }

    /// Main-ring slots one dispatch of this token consumes: one for an
    /// indirect token, else one per chain descriptor.
    pub open spec fn ring_len(self) -> int {
        if self.is_indirect() {
            1
        } else {
            self.send_descs().len() + self.recv_descs().len() as int
        }
    }

    /// All pool identifiers the token holds: send payloads, receive
    /// payloads, then control descriptors.
    pub open spec fn held_ids(self) -> Seq<u16> {
        (match self.send_buff {
            Some(b) => b.held_payload_ids(),
            None => Seq::empty(),
        }) + (match self.recv_buff {
            Some(b) => b.held_payload_ids(),
            None => Seq::empty(),
        }) + (match self.send_buff {
            Some(b) => b.held_ctrl_ids(),
            None => Seq::empty(),
        }) + (match self.recv_buff {
            Some(b) => b.held_ctrl_ids(),
            None => Seq::empty(),
        })
    }

    /// Every payload descriptor carries a pool identifier, as tokens
    /// prepared by a packed queue do.
    pub open spec fn fully_identified(self) -> bool {
        &&& (self.send_buff is Some ==> self.send_buff.unwrap().fully_identified())
        &&& (self.recv_buff is Some ==> self.recv_buff.unwrap().fully_identified())
    }

    /// Well-formedness: at least one side is given, both sides are
    /// well-formed, and an indirect side is never mixed with a direct
    /// one.
    pub open spec fn wf(self) -> bool {
        &&& (self.send_buff is Some || self.recv_buff is Some)
        &&& (self.send_buff is Some ==> self.send_buff.unwrap().wf())
        &&& (self.recv_buff is Some ==> self.recv_buff.unwrap().wf())
        &&& (self.send_buff is Some && self.recv_buff is Some
            ==> self.send_buff.unwrap().is_indirect() == self.recv_buff.unwrap().is_indirect())
    }

    /// Main-ring slots one dispatch of this token consumes.
    pub fn len(&self) -> (r: usize)
        requires
            self.wf(),
            self.ring_len() <= usize::MAX,
        ensures
            r == self.ring_len(),
    {
        let indirect = match &self.send_buff {
            Some(b) => b.get_ctrl_desc().is_some(),
            None => match &self.recv_buff {
                Some(b) => b.get_ctrl_desc().is_some(),
                None => false,
            },
        };
        if indirect {
            1
        } else {
            let s = match &self.send_buff {
                Some(b) => b.as_slice().len(),
                None => 0,
            };
            let r = match &self.recv_buff {
                Some(b) => b.as_slice().len(),
                None => 0,
            };
            s + r
        }
    }

    /// This token with the receive side's logical length replaced;
    /// a send-only token stays as it is.
    pub open spec fn spec_with_recv_len(self, l: usize) -> BufferToken {
        match self.recv_buff {
            Some(b) => BufferToken { recv_buff: Some(b.spec_with_len(l)), ..self },
            None => self,
        }
    }

    /// Truncates the receive side's logical length to what the device
    /// reported. A send-only token is unchanged.
    pub fn restr_size(&mut self, recv_len: usize)
        ensures
            *final(self) == old(self).spec_with_recv_len(recv_len),
    {
        match &mut self.recv_buff {
            Some(b) => b.restr_len(recv_len),
            None => (),
        }
    }
}

/// Wraps a buffer token with its in-flight state and the delivery
/// choice for its completion.
#[derive(Clone, Debug)]
pub struct TransferToken {
    /// Where the transfer stands.
    pub state: TransferState,
    /// The buffers of the transfer.
    pub buff_tkn: BufferToken,
    /// Whether the completed buffer token is handed back through the
    /// queue's completion delivery; without it the token is only
    /// marked finished.
    pub await_queue: bool,
}

impl TransferToken {
    /// A dispatchable token over `buff_tkn`; `await_queue` selects
    /// whether completion hands the buffers back.
    pub fn new(buff_tkn: BufferToken, await_queue: bool) -> (r: TransferToken)
        ensures
            r.state == TransferState::Ready,
            r.buff_tkn == buff_tkn,
            r.await_queue == await_queue,
    {
        TransferToken { state: TransferState::Ready, buff_tkn, await_queue }
    }
}

} // verus!
