//! The packed virtqueue: dispatch, completion, early drop, and the
//! preparation error paths.

use virtqueue::buffer::{BuffSpec, TransferToken};
use virtqueue::error::VirtqError;
use virtqueue::mempool::RawRegion;
use virtqueue::packed::{PackedVq, VqPackedError};
use virtqueue::{VqIndex, VqSize, F_INDIRECT_DESC, VIRTQ_DESC_F_INDIRECT};

fn new_vq(size: u16, features: u64) -> PackedVq {
    PackedVq::new(VqSize(size), VqIndex(0), 1, features).unwrap()
}

#[test]
fn new_rejects_bad_index_and_size() {
    assert_eq!(
        PackedVq::new(VqSize(8), VqIndex(3), 2, 0).err().unwrap(),
        VqPackedError::QueueNotExisting(3)
    );
    assert_eq!(
        PackedVq::new(VqSize(0), VqIndex(0), 1, 0).err().unwrap(),
        VqPackedError::SizeNotAllowed(0)
    );
    assert_eq!(
        PackedVq::new(VqSize(40000), VqIndex(0), 1, 0).err().unwrap(),
        VqPackedError::SizeNotAllowed(40000)
    );
    // Any size in range works for the packed layout, powers of two or
    // not.
    assert!(PackedVq::new(VqSize(5), VqIndex(0), 1, 0).is_ok());
}

#[test]
fn capacity_exhaustion_and_wrap_flip() {
    // Dispatch four single-descriptor send tokens on a queue of four:
    // the capacity reaches zero, the wrap counter flips after the
    // last slot, and a fifth preparation finds no identifier.
    let mut vq = new_vq(4, 0);
    for _ in 0..4 {
        let bt = vq.prep_buffer(Some(BuffSpec::Single(4)), None).unwrap();
        vq.dispatch(TransferToken::new(bt, true)).unwrap();
    }
    assert_eq!(vq.descr_ring.capacity, 0);
    assert!(!vq.descr_ring.wrap_count.0);
    assert_eq!(
        vq.prep_buffer(Some(BuffSpec::Single(4)), None).err().unwrap(),
        VirtqError::NoDescrAvail
    );
}

#[test]
fn early_drop_returns_ids_and_delivers_nothing() {
    // Dispatch a token, drop it early, let the device retire it: the
    // poll keeps the buffers to itself and the identifier goes back
    // to the pool.
    let mut vq = new_vq(4, 0);
    let bt = vq.prep_buffer(Some(BuffSpec::Single(8)), None).unwrap();
    let id = vq.dispatch(TransferToken::new(bt, true)).unwrap();
    assert!(vq.early_drop(id));
    assert!(vq.device_mark_used(id, 0));
    let delivered = vq.poll();
    assert!(delivered.is_empty());
    assert!(vq.finished.is_empty());
    assert_eq!(vq.mem_pool.free_count(), 4);
    assert_eq!(vq.descr_ring.capacity, 4);
}

#[test]
fn early_drop_needs_a_tracked_transfer() {
    let mut vq = new_vq(4, 0);
    assert!(!vq.early_drop(1));
    assert!(!vq.early_drop(0));
}

#[test]
fn mixing_indirect_with_direct_is_rejected_clean() {
    // An indirect side mixed with a direct one: the error comes
    // before anything is drawn.
    let mut vq = new_vq(8, F_INDIRECT_DESC);
    assert_eq!(
        vq.prep_buffer(Some(BuffSpec::Indirect(vec![4])), Some(BuffSpec::Single(4)))
            .err()
            .unwrap(),
        VirtqError::BufferInWithDirect
    );
    assert_eq!(vq.mem_pool.free_count(), 8);
    assert_eq!(vq.mem_pool.arena_used, 0);
}

#[test]
fn prep_error_paths() {
    let mut vq = new_vq(4, 0);
    assert_eq!(
        vq.prep_buffer(None, None).err().unwrap(),
        VirtqError::BufferNotSpecified
    );
    // Indirect tables need the negotiated feature bit.
    assert_eq!(
        vq.prep_buffer(Some(BuffSpec::Indirect(vec![4])), None).err().unwrap(),
        VirtqError::FeatureNotNegotiated(F_INDIRECT_DESC)
    );
    // An empty size list names no chunk.
    assert_eq!(
        vq.prep_buffer(Some(BuffSpec::Multiple(vec![])), None).err().unwrap(),
        VirtqError::BufferSizeWrong(0)
    );
    // A payload the arena can never hold.
    assert_eq!(
        vq.prep_buffer(Some(BuffSpec::Single(0x100_0001)), None).err().unwrap(),
        VirtqError::AllocationError
    );
    assert_eq!(vq.mem_pool.free_count(), 4);
    assert_eq!(vq.mem_pool.arena_used, 0);
}

#[test]
fn rollback_on_descriptor_shortage() {
    // Two chunks wanted, one identifier left: the pool is exactly as
    // before the failing call.
    let mut vq = new_vq(1, 0);
    assert_eq!(
        vq.prep_buffer(Some(BuffSpec::Multiple(vec![4, 4])), None).err().unwrap(),
        VirtqError::NoDescrAvail
    );
    assert_eq!(vq.mem_pool.free_count(), 1);
    assert_eq!(vq.mem_pool.arena_used, 0);
}

#[test]
fn indirect_token_takes_one_slot() {
    // An indirect send and receive token: payloads and the control
    // descriptor draw identifiers, the ring slot cost is one.
    let mut vq = new_vq(8, F_INDIRECT_DESC);
    let bt = vq
        .prep_buffer(
            Some(BuffSpec::Indirect(vec![8, 8])),
            Some(BuffSpec::Indirect(vec![16])),
        )
        .unwrap();
    // Three payload chunks and one shared control descriptor.
    assert_eq!(vq.mem_pool.free_count(), 4);
    assert_eq!(bt.len(), 1);
    let id = vq.dispatch(TransferToken::new(bt, true)).unwrap();
    assert_eq!(vq.descr_ring.capacity, 7);
    // The published head descriptor carries INDIRECT and the table
    // spans three 16-byte entries.
    let head = vq.descr_ring.ring[0];
    assert_eq!(head.buff_id, id);
    assert_eq!(head.flags & VIRTQ_DESC_F_INDIRECT, VIRTQ_DESC_F_INDIRECT);
    assert_eq!(head.len, 48);
}

#[test]
fn packed_indirect_table_entries() {
    // The packed control table: device-readable entries first with no
    // flags, then device-writable ones carrying WRITE; no chaining.
    let mut vq = new_vq(8, F_INDIRECT_DESC);
    let bt = vq
        .prep_buffer(
            Some(BuffSpec::Indirect(vec![8, 8])),
            Some(BuffSpec::Indirect(vec![16])),
        )
        .unwrap();
    let send_descs = bt.send_buff.as_ref().unwrap().as_slice().clone();
    let recv_descs = bt.recv_buff.as_ref().unwrap().as_slice().clone();
    let table = PackedVq::create_indirect_ctrl(Some(&send_descs), Some(&recv_descs)).unwrap();
    assert_eq!(table.len(), 3);
    assert_eq!(table[0].flags, 0);
    assert_eq!(table[1].flags, 0);
    assert_eq!(table[2].flags, 2);
    assert_eq!(table[0].len, 8);
    assert_eq!(table[2].len, 16);
    assert_eq!(
        PackedVq::create_indirect_ctrl(None, None).err().unwrap(),
        VirtqError::BufferNotSpecified
    );
}

#[test]
fn completion_truncates_recv_length() {
    // A receive-only token of logical length 32 into which the device
    // writes 5 bytes comes back with length 5.
    let mut vq = new_vq(4, 0);
    let bt = vq.prep_buffer(None, Some(BuffSpec::Single(32))).unwrap();
    let id = vq.dispatch(TransferToken::new(bt, true)).unwrap();
    // The device may not claim more than the buffer holds.
    assert!(!vq.device_mark_used(id, 33));
    assert!(vq.device_mark_used(id, 5));
    let done = vq.poll();
    assert_eq!(done.len(), 1);
    assert_eq!(done[0].recv_buff.as_ref().unwrap().len(), 5);
}

#[test]
fn full_cycle_restores_capacity_and_ids() {
    // Prepare, dispatch, retire, poll and return: afterwards the
    // capacity is the size again and every identifier is free.
    let mut vq = new_vq(4, 0);
    let bt = vq
        .prep_buffer(Some(BuffSpec::Single(16)), Some(BuffSpec::Single(32)))
        .unwrap();
    assert_eq!(vq.mem_pool.free_count(), 2);
    let id = vq.dispatch(TransferToken::new(bt, true)).unwrap();
    assert_eq!(vq.descr_ring.capacity, 2);
    assert!(vq.device_mark_used(id, 32));
    let mut done = vq.poll();
    assert_eq!(vq.descr_ring.capacity, 4);
    assert_eq!(done.len(), 1);
    vq.return_token(done.pop().unwrap());
    assert_eq!(vq.mem_pool.free_count(), 4);
}

#[test]
fn wrap_counter_parity_over_passes() {
    // One full pass flips the wrap counter; a second restores it.
    let mut vq = new_vq(2, 0);
    for pass in 0..2 {
        for _ in 0..2 {
            let bt = vq.prep_buffer(Some(BuffSpec::Single(4)), None).unwrap();
            let id = vq.dispatch(TransferToken::new(bt, true)).unwrap();
            assert!(vq.device_mark_used(id, 0));
            for t in vq.poll() {
                vq.return_token(t);
            }
        }
        assert_eq!(vq.descr_ring.wrap_count.0, (pass + 1) % 2 == 0);
    }
    assert!(vq.descr_ring.wrap_count.0);
}

#[test]
fn finished_list_collects_unawaited_completions() {
    let mut vq = new_vq(4, 0);
    let bt = vq.prep_buffer(Some(BuffSpec::Single(8)), None).unwrap();
    let id = vq.dispatch(TransferToken::new(bt, false)).unwrap();
    assert!(vq.device_mark_used(id, 0));
    let delivered = vq.poll();
    assert!(delivered.is_empty());
    let finished = vq.collect_finished();
    assert_eq!(finished.len(), 1);
    assert!(vq.finished.is_empty());
}

#[test]
fn notification_control() {
    let mut vq = new_vq(4, 0);
    assert!(vq.dev_is_notif());
    vq.device_set_notif(false);
    assert!(!vq.dev_is_notif());
    vq.device_set_notif(true);
    assert!(vq.dev_is_notif());
    vq.disable_notifs();
    assert_eq!(vq.drv_event.flags, 1);
    vq.enable_notifs();
    assert_eq!(vq.drv_event.flags, 0);
}

#[test]
fn prep_transfer_checks_data_lengths() {
    let mut vq = new_vq(4, 0);
    let data = [0u8; 8];
    assert_eq!(
        vq.prep_transfer(Some((&data, BuffSpec::Single(16))), None).err().unwrap(),
        VirtqError::BufferSizeWrong(8)
    );
    assert_eq!(vq.mem_pool.free_count(), 4);
    let tkn = vq.prep_transfer(Some((&data, BuffSpec::Single(8))), None).unwrap();
    assert!(tkn.buff_tkn.reusable);
    assert_eq!(vq.mem_pool.free_count(), 3);
}

#[test]
fn prep_transfer_from_raw_wraps_caller_memory() {
    let mut vq = new_vq(4, 0);
    let region = RawRegion { addr: 0x4000, len: 12 };
    let tkn = vq
        .prep_transfer_from_raw(Some((region, BuffSpec::Multiple(vec![4, 8]))), None)
        .unwrap();
    let bt = &tkn.buff_tkn;
    assert!(!bt.reusable);
    assert!(!bt.ret_send);
    let descs = bt.send_buff.as_ref().unwrap().as_slice();
    assert_eq!(descs.len(), 2);
    assert_eq!(descs[0].addr, 0x4000);
    assert_eq!(descs[1].addr, 0x4004);
    assert!(!descs[0].dealloc);
    // No arena memory moved for the payloads.
    assert_eq!(vq.mem_pool.arena_used, 0);
    assert_eq!(vq.mem_pool.free_count(), 2);
    let bad = RawRegion { addr: 0x4000, len: 5 };
    assert_eq!(
        vq.prep_transfer_from_raw(Some((bad, BuffSpec::Multiple(vec![4, 8]))), None)
            .err()
            .unwrap(),
        VirtqError::BufferSizeWrong(5)
    );
}

#[test]
fn published_chain_orders_write_descriptors_last() {
    // A send and receive chain of three descriptors: the published
    // ring entries carry WRITE only on the receive tail.
    let mut vq = new_vq(8, 0);
    let bt = vq
        .prep_buffer(Some(BuffSpec::Multiple(vec![4, 4])), Some(BuffSpec::Single(8)))
        .unwrap();
    vq.dispatch(TransferToken::new(bt, true)).unwrap();
    let write_bits: Vec<bool> = (0..3).map(|p| vq.descr_ring.ring[p].flags & 2 != 0).collect();
    assert_eq!(write_bits, vec![false, false, true]);
}
