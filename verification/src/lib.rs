//! VirtIO virtqueue driver core.
//!
//! The in-guest side of the paravirtualized I/O transport: the two
//! virtqueue layouts (split and packed), the descriptor and token
//! lifecycle, and the memory pool that backs descriptor payloads.
//! Device transports, DMA allocation and upper drivers are collaborators
//! reached from outside this crate; the queues here operate on plain
//! values and are verified against the VirtIO ring rules.

pub mod buffer;
pub mod error;
pub mod mempool;
pub mod packed;
pub mod split;

use vstd::prelude::*;

verus! {

/// Wrapper of a queue size, in descriptors.
#[derive(Copy, Clone, Debug, PartialEq, Eq, Structural)]
pub struct VqSize(pub u16);

/// Wrapper of a queue index, unique per device.
#[derive(Copy, Clone, Debug, PartialEq, Eq, Structural)]
pub struct VqIndex(pub u16);

/// Feature bit gating use of indirect descriptor tables.
pub const F_INDIRECT_DESC: u64 = 0x1000_0000;

/// Feature bit gating event-index notification suppression.
pub const F_EVENT_IDX: u64 = 0x2000_0000;

/// Feature bit selecting the extended notification payload.
pub const F_NOTIFICATION_DATA: u64 = 0x40_0000_0000;

/// Descriptor flag: the chain continues in another descriptor.
pub const VIRTQ_DESC_F_NEXT: u16 = 1;

/// Descriptor flag: the buffer is device-writable.
pub const VIRTQ_DESC_F_WRITE: u16 = 2;

/// Descriptor flag: the descriptor points at an indirect table.
pub const VIRTQ_DESC_F_INDIRECT: u16 = 4;

/// Packed-layout flag bit marking a descriptor available.
pub const VIRTQ_DESC_F_AVAIL: u16 = 0x80;

/// Packed-layout flag bit marking a descriptor used.
pub const VIRTQ_DESC_F_USED: u16 = 0x8000;

/// Whether the flag bit of value `bit` (a power of two) is set in
/// `flags`.
pub open spec fn bit_is_set(flags: u16, bit: u16) -> bool {
    ((flags as int) / (bit as int)) % 2 == 1
}

/// Whether the feature bit of value `bit` (a power of two) is set in
/// the negotiated feature word.
pub open spec fn feature_is_set(features: u64, bit: u64) -> bool {
    ((features as int) / (bit as int)) % 2 == 1
}

} // verus!
