//! The split virtqueue: dispatch through the available ring,
//! completion through the used ring, and the indirect control table.

use virtqueue::buffer::BuffSpec;
use virtqueue::error::VirtqError;
use virtqueue::mempool::MemDescr;
use virtqueue::split::SplitVq;
use virtqueue::{VqIndex, VqSize, F_INDIRECT_DESC};

fn new_vq(size: u16, features: u64) -> SplitVq {
    SplitVq::new(VqSize(size), VqIndex(0), 1, features).unwrap()
}

#[test]
fn new_rejects_bad_index_and_sizes() {
    assert_eq!(
        SplitVq::new(VqSize(8), VqIndex(2), 2, 0).err().unwrap(),
        VirtqError::QueueNotExisting(2)
    );
    assert_eq!(
        SplitVq::new(VqSize(0), VqIndex(0), 1, 0).err().unwrap(),
        VirtqError::SizeNotAllowed(0)
    );
    // The split layout wants powers of two.
    assert_eq!(
        SplitVq::new(VqSize(6), VqIndex(0), 1, 0).err().unwrap(),
        VirtqError::SizeNotAllowed(6)
    );
    assert_eq!(
        SplitVq::new(VqSize(40000), VqIndex(0), 1, 0).err().unwrap(),
        VirtqError::SizeNotAllowed(40000)
    );
    assert!(SplitVq::new(VqSize(32768), VqIndex(0), 1, 0).is_ok());
}

#[test]
fn two_transfers_round_trip() {
    // Two send-and-receive tokens on a queue of eight: the available
    // index advances by one per dispatch, two tokens are pinned, four
    // table slots are outstanding, and after retirement the poll
    // hands both back with the written length, all slots free again.
    let mut vq = new_vq(8, 0);
    let bt1 = vq
        .prep_buffer(Some(BuffSpec::Single(16)), Some(BuffSpec::Single(32)))
        .unwrap();
    let bt2 = vq
        .prep_buffer(Some(BuffSpec::Single(16)), Some(BuffSpec::Single(32)))
        .unwrap();
    // The device wants notifications by default, so the new available
    // index comes back for the transport store.
    assert_eq!(vq.dispatch_await(bt1, false).unwrap(), Some(1));
    assert_eq!(vq.dispatch_await(bt2, false).unwrap(), Some(2));
    assert_eq!(vq.ring.avail_ring.idx, 2);
    let pinned = (0..8).filter(|s| vq.ring.token_ring[*s].is_some()).count();
    assert_eq!(pinned, 2);
    assert_eq!(vq.ring.mem_pool.free_count(), 4);
    // Chains draw their slots newest-first: heads sit in slots 6 and 4.
    assert!(vq.device_mark_used(6, 32));
    assert!(vq.device_mark_used(4, 32));
    let done = vq.poll();
    assert_eq!(done.len(), 2);
    assert_eq!(done[0].recv_buff.as_ref().unwrap().len(), 32);
    assert_eq!(done[1].recv_buff.as_ref().unwrap().len(), 32);
    assert_eq!(vq.ring.mem_pool.free_count(), 8);
    assert_eq!(vq.ring.read_idx, vq.ring.used_ring.idx);
}

#[test]
fn completions_deliver_in_device_order() {
    // The device retires the second chain first: the poll delivers
    // them in that order, both intact.
    let mut vq = new_vq(8, 0);
    let a = vq.prep_buffer(Some(BuffSpec::Single(4)), None).unwrap();
    let b = vq.prep_buffer(Some(BuffSpec::Single(8)), None).unwrap();
    vq.dispatch_await(a, false).unwrap();
    vq.dispatch_await(b, false).unwrap();
    // Head slots: the first chain drew slot 7, the second slot 6.
    assert!(vq.device_mark_used(6, 0));
    assert!(vq.device_mark_used(7, 0));
    let done = vq.poll();
    assert_eq!(done.len(), 2);
    assert_eq!(done[0].send_buff.as_ref().unwrap().len(), 8);
    assert_eq!(done[1].send_buff.as_ref().unwrap().len(), 4);
}

#[test]
fn avail_index_wraps_sixteen_bits() {
    let mut vq = new_vq(2, 0);
    let mut expected: u16 = 0;
    for _ in 0..5 {
        let bt = vq.prep_buffer(Some(BuffSpec::Single(4)), None).unwrap();
        vq.dispatch_await(bt, false).unwrap();
        expected = expected.wrapping_add(1);
        assert_eq!(vq.ring.avail_ring.idx, expected);
        let head = vq.ring.avail_ring.ring
            [(expected.wrapping_sub(1) as usize) % 2] as u16;
        assert!(vq.device_mark_used(head, 0));
        vq.poll();
    }
}

#[test]
fn split_indirect_table_chains_entries() {
    // An indirect send chain of [8, 8] and receive chain of [16]: the
    // table holds three entries, linked 0 to 1 to 2, the first two
    // device-readable, the last device-writable with NEXT cleared.
    let send = vec![
        MemDescr { addr: 0x1000, len: 8, id: 0, dealloc: true },
        MemDescr { addr: 0x1008, len: 8, id: 0, dealloc: true },
    ];
    let recv = vec![MemDescr { addr: 0x1010, len: 16, id: 0, dealloc: true }];
    let table = SplitVq::create_indirect_ctrl(Some(&send), Some(&recv)).unwrap();
    assert_eq!(table.len(), 3);
    assert_eq!(table[0].flags, 1);
    assert_eq!(table[0].next, 1);
    assert_eq!(table[1].flags, 1);
    assert_eq!(table[1].next, 2);
    assert_eq!(table[2].flags, 2);
    assert_eq!(table[2].next, 0);
    assert_eq!(
        SplitVq::create_indirect_ctrl(None, None).err().unwrap(),
        VirtqError::BufferNotSpecified
    );
}

#[test]
fn indirect_dispatch_publishes_one_slot() {
    let mut vq = new_vq(8, F_INDIRECT_DESC);
    let bt = vq
        .prep_buffer(
            Some(BuffSpec::Indirect(vec![8, 8])),
            Some(BuffSpec::Indirect(vec![16])),
        )
        .unwrap();
    // Anonymous payloads: no table slot drawn at preparation.
    assert_eq!(vq.ring.mem_pool.free_count(), 8);
    vq.dispatch_await(bt, false).unwrap();
    // One slot for the single INDIRECT descriptor.
    assert_eq!(vq.ring.mem_pool.free_count(), 7);
    let head = vq.ring.descr_table[7];
    assert_eq!(head.flags, 4);
    assert_eq!(head.len, 48);
}

#[test]
fn chain_links_run_through_next() {
    // A three-chunk chain: the published table entries link each
    // descriptor to its successor and the tail carries WRITE alone.
    let mut vq = new_vq(8, 0);
    let bt = vq
        .prep_buffer(Some(BuffSpec::Multiple(vec![4, 4])), Some(BuffSpec::Single(8)))
        .unwrap();
    vq.dispatch_await(bt, false).unwrap();
    // The head is drawn last, so the chain sits in slots 5, 6, 7.
    let d0 = vq.ring.descr_table[5];
    let d1 = vq.ring.descr_table[6];
    let d2 = vq.ring.descr_table[7];
    assert_eq!(d0.flags, 1);
    assert_eq!(d0.next, 6);
    assert_eq!(d1.flags, 1);
    assert_eq!(d1.next, 7);
    assert_eq!(d2.flags, 2);
    assert_eq!(d2.next, 0);
}

#[test]
fn dispatch_fails_clean_when_slots_run_out() {
    let mut vq = new_vq(2, 0);
    let big = vq
        .prep_buffer(Some(BuffSpec::Multiple(vec![4, 4, 4])), None)
        .unwrap();
    assert_eq!(vq.dispatch_await(big, false).err().unwrap(), VirtqError::NoDescrAvail);
    assert_eq!(vq.ring.mem_pool.free_count(), 2);
    assert_eq!(vq.ring.avail_ring.idx, 0);
}

#[test]
fn notification_suppression() {
    let mut vq = new_vq(4, 0);
    assert!(vq.dev_is_notif());
    vq.device_set_notif(false);
    // With the device suppressing notifications, a dispatch reports
    // no index to store.
    let bt = vq.prep_buffer(Some(BuffSpec::Single(4)), None).unwrap();
    assert_eq!(vq.dispatch_await(bt, false).unwrap(), None);
    vq.disable_notifs();
    assert_eq!(vq.ring.avail_ring.flags, 1);
    vq.enable_notifs();
    assert_eq!(vq.ring.avail_ring.flags, 0);
}

#[test]
fn split_prep_error_paths() {
    let mut vq = new_vq(4, 0);
    assert_eq!(vq.prep_buffer(None, None).err().unwrap(), VirtqError::BufferNotSpecified);
    assert_eq!(
        vq.prep_buffer(Some(BuffSpec::Indirect(vec![4])), Some(BuffSpec::Single(4)))
            .err()
            .unwrap(),
        VirtqError::BufferInWithDirect
    );
    assert_eq!(
        vq.prep_buffer(Some(BuffSpec::Indirect(vec![4])), None).err().unwrap(),
        VirtqError::FeatureNotNegotiated(F_INDIRECT_DESC)
    );
    assert_eq!(
        vq.prep_buffer(None, Some(BuffSpec::Multiple(vec![]))).err().unwrap(),
        VirtqError::BufferSizeWrong(0)
    );
    assert_eq!(
        vq.prep_buffer(Some(BuffSpec::Single(0x100_0001)), None).err().unwrap(),
        VirtqError::AllocationError
    );
    assert_eq!(vq.ring.mem_pool.arena_used, 0);
    assert_eq!(vq.ring.mem_pool.free_count(), 4);
}

#[test]
fn unawaited_completions_wait_on_finished_list() {
    let mut vq = new_vq(4, 0);
    let bt = vq.prep_buffer(Some(BuffSpec::Single(4)), None).unwrap();
    // Dispatch through the ring directly without a delivery endpoint.
    let tkn = virtqueue::buffer::TransferToken::new(bt, false);
    vq.ring.push(tkn).unwrap();
    assert!(vq.device_mark_used(3, 0));
    let delivered = vq.poll();
    assert!(delivered.is_empty());
    let finished = vq.collect_finished();
    assert_eq!(finished.len(), 1);
}
