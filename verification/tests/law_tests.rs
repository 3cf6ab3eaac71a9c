use kernel::buddy::BuddyAllocator;
use kernel::chan::Channel;
use kernel::file::{FileStore, PipeNode};
use kernel::frame::FramePool;
use kernel::futex::FutexBucket;
use kernel::process::{CapSet, SigSet};

#[test]
fn buddy_free_gives_back_what_alloc_took() {
    let mut b = BuddyAllocator::new(0x10_0000, 16, 4);
    assert_eq!(b.free_pages_count(), 16);
    assert_eq!(b.largest_free_order(), 4);
    let a = b.alloc_order(0).unwrap();
    assert!(a >= 0x10_0000 && a < 0x10_0000 + 16 * 4096);
    assert_eq!(b.free_pages_count(), 15);
    assert_eq!(b.allocated, 1);
    b.free_order(a, 0);
    assert_eq!(b.free_pages_count(), 16);
    assert_eq!(b.largest_free_order(), 4);
    assert_eq!(b.allocated, 0);
}

#[test]
fn buddy_refuses_orders_out_of_range() {
    let mut b = BuddyAllocator::new(0x10_0000, 4, 2);
    assert_eq!(b.alloc_order(3), None);
    assert!(b.alloc_order(2).is_some());
    assert_eq!(b.alloc_order(0), None);
    assert_eq!(b.free_pages_count(), 0);
}

#[test]
fn buddy_splits_odd_sizes() {
    let b = BuddyAllocator::new(0, 7, 4);
    assert_eq!(b.free_pages_count(), 7);
    assert_eq!(b.largest_free_order(), 2);
}

#[test]
fn channel_send_then_recv() {
    let mut c = Channel::new(4);
    assert!(c.send(42));
    assert_eq!(c.try_recv(), Some(42));
    assert_eq!(c.try_recv(), None);
}

#[test]
fn frame_taken_and_put_back() {
    let mut p = FramePool::new(4);
    assert_eq!(p.free_count(), 4);
    let f = p.get_inner().unwrap();
    assert_eq!(f, 0);
    assert!(!p.avail(0));
    assert_eq!(p.free_count(), 3);
    assert_eq!(p.get_inner(), Some(1));
    p.put(0);
    assert!(p.avail(0));
    assert_eq!(p.free_count(), 3);
    assert_eq!(p.get_inner(), Some(0));
}

#[test]
fn frame_pool_runs_dry() {
    let mut p = FramePool::new(1);
    assert_eq!(p.get_inner(), Some(0));
    assert_eq!(p.get_inner(), None);
    p.put(7);
    assert_eq!(p.free_count(), 0);
}

#[test]
fn futex_wait_then_wake() {
    let mut b = FutexBucket::new();
    assert_eq!(b.wait(0x100, 5, 5, 7), Ok(()));
    assert_eq!(b.wait(0x200, 1, 1, 8), Ok(()));
    assert_eq!(b.pending_at(0x100), 1);
    assert_eq!(b.wake(0x100, 1), 1);
    assert_eq!(b.pending_at(0x100), 0);
    assert_eq!(b.pending_at(0x200), 1);
    assert_eq!(b.finish_wait(7), Ok(()));
    assert_eq!(b.finish_wait(7), Err("timeout"));
    assert_eq!(b.finish_wait(8), Err("timeout"));
}

#[test]
fn futex_wait_refuses_changed_word() {
    let mut b = FutexBucket::new();
    assert_eq!(b.wait(0x100, 5, 6, 7), Err("changed"));
    assert_eq!(b.pending_at(0x100), 0);
    assert_eq!(b.wake(0x100, 3), 0);
}

#[test]
fn pipe_write_then_read() {
    let mut s = FileStore::new();
    let (rd, wr) = PipeNode::pair(&mut s);
    assert!(wr.can_write(&s));
    assert!(!rd.can_read(&s));
    assert_eq!(wr.write_at(&mut s, b"abc"), Ok(3));
    assert!(rd.can_read(&s));
    let mut buf = [0u8; 8];
    assert_eq!(rd.read_at(&mut s, &mut buf), Ok(3));
    assert_eq!(&buf[..3], b"abc");
    assert_eq!(rd.read_at(&mut s, &mut buf), Err("again"));
}

#[test]
fn pipe_read_in_pieces_and_after_close() {
    let mut s = FileStore::new();
    let (rd, wr) = PipeNode::pair(&mut s);
    assert_eq!(wr.write_at(&mut s, b"hello"), Ok(5));
    let mut two = [0u8; 2];
    assert_eq!(rd.read_at(&mut s, &mut two), Ok(2));
    assert_eq!(&two, b"he");
    assert_eq!(rd.write_at(&mut s, b"x"), Ok(0));
    wr.release(&mut s);
    assert!(!wr.can_write(&s));
    let mut rest = [0u8; 8];
    assert_eq!(rd.read_at(&mut s, &mut rest), Ok(3));
    assert_eq!(&rest[..3], b"llo");
    assert_eq!(rd.read_at(&mut s, &mut rest), Ok(0));
}

#[test]
fn capability_grant_then_drop() {
    let mut c = CapSet::new();
    assert!(!c.check(5));
    c.grant(5);
    assert!(c.check(5));
    c.drop_cap(5);
    assert!(!c.check(5));
    c.grant(64);
    assert!(!c.check(64));
}

#[test]
fn signals_lowest_unblocked_first() {
    let mut s = SigSet::new();
    assert_eq!(s.deliverable(), None);
    s.sig_raise(10);
    s.sig_raise(12);
    assert_eq!(s.deliverable(), Some(10));
    s.sig_block(1 << 10);
    assert_eq!(s.deliverable(), Some(12));
    assert_eq!(s.coalesce_pending(), 1 << 12);
    s.sig_block(1 << 9);
    assert_eq!(s.blocked, 1 << 10);
    s.sig_clear(12);
    assert_eq!(s.deliverable(), None);
}
