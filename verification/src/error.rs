//! Errors surfaced by the queue interfaces.

use vstd::prelude::*;

verus! {

/// Error kinds surfaced by the virtqueue interfaces.
#[derive(Copy, Clone, Debug, PartialEq, Eq, Structural)]
pub enum VirtqError {
    /// Neither a send nor a receive buffer was given.
    BufferNotSpecified,
    /// A buffer or slice does not match the requested specification;
    /// carries the offending length.
    BufferSizeWrong(usize),
    /// An indirect buffer was mixed with a direct buffer in one token.
    BufferInWithDirect,
    /// The pool's descriptor identifiers or the ring's capacity are
    /// exhausted.
    NoDescrAvail,
    /// The arena backing payload allocations is exhausted.
    AllocationError,
    /// The transport rejected the queue index; carries the index.
    QueueNotExisting(u16),
    /// The requested size violates the queue kind's constraints;
    /// carries the size.
    SizeNotAllowed(u16),
    /// A path was requested that needs a feature bit the device did
    /// not accept; carries the feature bit.
    FeatureNotNegotiated(u64),
    /// Unspecified transport failure.
    General,
}

impl VirtqError {
    /// A short description of the error kind.
    pub fn description(&self) -> (r: &'static str)
        ensures
            r@ =~= match self {
                VirtqError::BufferNotSpecified => "no buffer specified"@,
                VirtqError::BufferSizeWrong(_) => "buffer size wrong"@,
                VirtqError::BufferInWithDirect => "indirect mixed with direct"@,
                VirtqError::NoDescrAvail => "no descriptor available"@,
                VirtqError::AllocationError => "allocation failed"@,
                VirtqError::QueueNotExisting(_) => "queue not existing"@,
                VirtqError::SizeNotAllowed(_) => "size not allowed"@,
                VirtqError::FeatureNotNegotiated(_) => "feature not negotiated"@,
                VirtqError::General => "general transport failure"@,
            },
    {
        match self {
            VirtqError::BufferNotSpecified => "no buffer specified",
            VirtqError::BufferSizeWrong(_) => "buffer size wrong",
            VirtqError::BufferInWithDirect => "indirect mixed with direct",
            VirtqError::NoDescrAvail => "no descriptor available",
            VirtqError::AllocationError => "allocation failed",
            VirtqError::QueueNotExisting(_) => "queue not existing",
            VirtqError::SizeNotAllowed(_) => "size not allowed",
            VirtqError::FeatureNotNegotiated(_) => "feature not negotiated",
            VirtqError::General => "general transport failure",
        }
    }
}

/// Driver-level error passed on to higher layers when a virtio device
/// cannot be brought up.
#[derive(Copy, Clone, Debug, PartialEq, Eq, Structural)]
pub enum DriverError {
    /// Initializing a virtio device failed; carries the queue error.
    InitVirtioDevFail(VirtqError),
}

impl DriverError {
    /// A short description of the error kind.
    pub fn description(&self) -> (r: &'static str)
        ensures
            r@ =~= "virtio driver failed"@,
    {
        match self {
            DriverError::InitVirtioDevFail(_) => "virtio driver failed",
        }
    }
}

} // verus!
