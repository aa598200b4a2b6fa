//! The memory pool and the wire-level pieces.

use virtqueue::error::{DriverError, VirtqError};
use virtqueue::mempool::{MemDescrId, MemPool, ARENA_BASE, ARENA_CAPACITY};
use virtqueue::packed::{Descriptor, EventSuppr, WrapCount};

#[test]
fn pool_starts_full_and_pulls_in_order() {
    let mut pool = MemPool::new(4);
    assert_eq!(pool.free_count(), 4);
    let a = pool.pull(16).unwrap();
    assert_eq!(a.id, 4);
    assert_eq!(a.len, 16);
    assert!(a.dealloc);
    assert_eq!(a.addr, ARENA_BASE);
    let b = pool.pull(3).unwrap();
    assert_eq!(b.id, 3);
    // The arena is word-aligned: 16 bytes for the first chunk.
    assert_eq!(b.addr, ARENA_BASE + 16);
    assert_eq!(pool.free_count(), 2);
}

#[test]
fn pool_exhaustion_is_no_descr_avail() {
    let mut pool = MemPool::new(1);
    pool.pull(8).unwrap();
    assert_eq!(pool.pull(8), Err(VirtqError::NoDescrAvail));
}

#[test]
fn pool_arena_overflow_is_allocation_error() {
    let mut pool = MemPool::new(4);
    assert_eq!(pool.pull(ARENA_CAPACITY + 1), Err(VirtqError::AllocationError));
    // The failing call left the pool untouched.
    assert_eq!(pool.free_count(), 4);
    assert_eq!(pool.arena_used, 0);
}

#[test]
fn pool_ret_id_rejects_double_and_bad_returns() {
    let mut pool = MemPool::new(2);
    let d = pool.pull(8).unwrap();
    assert_eq!(d.id, 2);
    assert!(pool.ret_id(MemDescrId(2)));
    // A second return of the same identifier changes nothing.
    assert!(!pool.ret_id(MemDescrId(2)));
    assert!(!pool.ret_id(MemDescrId(0)));
    assert!(!pool.ret_id(MemDescrId(7)));
    assert_eq!(pool.free_count(), 2);
}

#[test]
fn pool_untracked_and_raw() {
    let mut pool = MemPool::new(2);
    let u = pool.pull_untracked(8).unwrap();
    assert!(!u.dealloc);
    assert_eq!(u.id, 2);
    let r = pool.pull_from_raw(0xDEAD_0000, 24).unwrap();
    assert_eq!(r.addr, 0xDEAD_0000);
    assert_eq!(r.len, 24);
    assert_eq!(r.id, 1);
    assert!(!r.dealloc);
    // Wrapping caller memory consumes no arena.
    assert_eq!(pool.arena_used, 8);
}

#[test]
fn pool_pull_from_copies_into_arena() {
    let mut pool = MemPool::new(2);
    let data = [1u8, 2, 3, 4, 5];
    let d = pool.pull_from(&data).unwrap();
    assert_eq!(d.len, 5);
    assert_eq!(d.id, 2);
    assert!(d.dealloc);
    assert_eq!(pool.arena_used, 8);
}

#[test]
fn descriptor_wire_image_is_little_endian() {
    let d = Descriptor::new(0x0102_0304_0506_0708, 0x0A0B_0C0D, 0x0E0F, 0x8081);
    let bytes = d.to_le_bytes();
    assert_eq!(
        bytes,
        vec![8, 7, 6, 5, 4, 3, 2, 1, 0x0D, 0x0C, 0x0B, 0x0A, 0x0F, 0x0E, 0x81, 0x80]
    );
}

#[test]
fn wrap_count_flags_and_flip() {
    let mut w = WrapCount::new();
    assert!(w.0);
    assert_eq!(w.as_flags(), 0x80);
    w.wrap();
    assert!(!w.0);
    assert_eq!(w.as_flags(), 0x8000);
    w.wrap();
    assert!(w.0);
}

#[test]
fn descriptor_used_phase_bits() {
    // Retired under wrap 1: both phase bits set.
    let used = Descriptor::new(0, 0, 1, 0x8080);
    assert!(used.is_used(true));
    assert!(!used.is_used(false));
    // Freshly published under wrap 1: only AVAIL set.
    let avail = Descriptor::new(0, 0, 1, 0x80);
    assert!(!avail.is_used(true));
    assert!(!avail.is_used(false));
}

#[test]
fn event_suppression_area() {
    let mut e = EventSuppr::new();
    assert!(e.is_notif());
    e.disable_notif();
    assert!(!e.is_notif());
    assert_eq!(e.flags, 1);
    e.enable_notif();
    assert!(e.is_notif());
    // Descriptor-specific notification needs the event-index feature
    // and a slot below 2^15.
    assert!(!e.enable_specific(5, WrapCount(true), false));
    assert!(!e.enable_specific(0x8000, WrapCount(true), true));
    assert!(e.enable_specific(5, WrapCount(true), true));
    assert_eq!(e.flags, 2);
    assert_eq!(e.desc, 0x8005);
    let mut e2 = EventSuppr::new();
    assert!(e2.enable_specific(5, WrapCount(false), true));
    assert_eq!(e2.desc, 5);
}

#[test]
fn error_descriptions() {
    assert_eq!(VirtqError::NoDescrAvail.description(), "no descriptor available");
    assert_eq!(VirtqError::BufferSizeWrong(7).description(), "buffer size wrong");
    let e = DriverError::InitVirtioDevFail(VirtqError::General);
    assert_eq!(e.description(), "virtio driver failed");
}
