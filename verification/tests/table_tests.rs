use kernel::ioqueue::IoQueue;
use kernel::kobj::KObjRegistry;
use kernel::mount::MountTable;
use kernel::pgroup::ProcessGroup;
use kernel::slab::SlabEntry;
use kernel::waitq::WaitQueue;

#[test]
fn mount_rewrites_longest_prefix() {
    let mut m = MountTable::new();
    m.bind(b"/dev", b"sda");
    m.bind(b"/dev/x", b"sdb");
    assert_eq!(m.mount_count(), 2);
    assert_eq!(m.resolve(b"/dev/y"), Ok(b"sda:/y".to_vec()));
    assert_eq!(m.resolve(b"/dev/x/y"), Ok(b"sdb:/y".to_vec()));
    assert_eq!(m.resolve(b"/dev"), Ok(b"sda:".to_vec()));
}

#[test]
fn mount_free_paths_collapse_slashes() {
    let m = MountTable::new();
    assert_eq!(m.resolve(b"//a//b"), Ok(b"/a/b".to_vec()));
    assert_eq!(m.resolve(b""), Ok(Vec::new()));
    assert_eq!(m.resolve(b"abc"), Ok(b"abc".to_vec()));
}

#[test]
fn mount_bind_once_and_unmount() {
    let mut m = MountTable::new();
    m.bind(b"/mnt", b"usb");
    m.bind(b"/mnt", b"usb");
    assert_eq!(m.mount_count(), 1);
    assert!(m.has_prefix(b"/mnt"));
    assert!(m.find_mount(b"/mnt/a").is_some());
    assert!(m.find_mount(b"/other").is_none());
    assert!(m.unmount(b"/mnt"));
    assert!(!m.unmount(b"/mnt"));
    assert!(!m.has_prefix(b"/mnt"));
    assert_eq!(m.resolve(b"/mnt/a"), Ok(b"/mnt/a".to_vec()));
}

#[test]
fn kobj_register_and_unregister() {
    let mut r = KObjRegistry::new();
    let a = r.register(3, 10, 0);
    let b = r.register(3, 11, 1);
    let c = r.register_child(4, 10, a, 2);
    assert_eq!(r.count(), 3);
    assert_eq!(r.find_by_type(3), vec![a, b]);
    assert_eq!(r.find_by_type(4), vec![c]);
    assert_eq!(r.owner_objects(10), vec![a, c]);
    assert!(r.unregister(b));
    assert!(!r.unregister(b));
    assert_eq!(r.find_by_type(3), vec![a]);
    assert_eq!(r.count(), 2);
}

#[test]
fn kobj_references_and_sweep() {
    let mut r = KObjRegistry::new();
    let a = r.register(1, 1, 0);
    let b = r.register(1, 1, 0);
    assert!(r.ref_up(a));
    assert!(r.ref_down(b));
    assert!(!r.ref_up(99));
    assert_eq!(r.gc_sweep(), 1);
    assert_eq!(r.find_by_type(1), vec![a]);
}

#[test]
fn wait_queue_wakes_oldest_first() {
    let mut q = WaitQueue::new();
    q.sleep(1, 0, 100);
    q.sleep(2, 0, 200);
    q.sleep(1, 0, 101);
    assert!(q.has_waiters_for(1));
    assert!(q.wake_one(1));
    assert_eq!(q.pending_count(), 2);
    assert_eq!(q.wake_all(1), 1);
    assert!(!q.wake_one(1));
    assert!(!q.has_waiters_for(1));
    assert_eq!(q.total_wakes(), 2);
    assert_eq!(q.pending_count(), 1);
}

#[test]
fn wait_queue_timeout() {
    let mut q = WaitQueue::new();
    q.sleep_timeout(7, 0, 1);
    assert!(q.timeout_expired(7));
    assert!(!q.timeout_expired(7));
    assert_eq!(q.pending_count(), 0);
}

#[test]
fn process_group_membership() {
    let mut g = ProcessGroup::new(5, 5, 1);
    assert!(g.is_leader(5));
    assert_eq!(g.member_count(), 1);
    g.add_member(6);
    g.add_member(6);
    assert_eq!(g.member_count(), 2);
    assert!(g.remove_member(5));
    assert!(!g.remove_member(5));
    assert!(!g.is_empty());
    assert!(g.remove_member(6));
    assert!(g.is_empty());
    g.set_foreground(true);
    assert!(g.is_foreground());
}

#[test]
fn slab_hands_out_aligned_objects() {
    let mut s = SlabEntry::new(5, 3);
    assert_eq!(s.obj_size, 8);
    assert_eq!(s.slab_avail(), 3);
    assert_eq!(s.slab_alloc(false), Some(0));
    assert_eq!(s.slab_alloc(false), Some(8));
    assert_eq!(s.slab_used(), 2);
    s.slab_free(8);
    s.slab_free(3);
    assert_eq!(s.slab_avail(), 2);
    assert_eq!(s.slab_used(), 1);
    assert_eq!(s.slab_alloc(true), Some(16));
    assert_eq!(s.slab_alloc(true), Some(8));
    assert_eq!(s.slab_alloc(true), None);
}

#[test]
fn io_queue_elevator_order() {
    let mut q = IoQueue::new();
    assert_eq!(q.dispatch(), None);
    q.submit(10, false, 0, 0);
    q.submit(5, true, 0, 0);
    q.submit(20, false, 0, 0);
    assert_eq!(q.depth(), 3);
    assert_eq!(q.dispatch(), Some((5, true)));
    assert_eq!(q.dispatch(), Some((10, false)));
    assert_eq!(q.dispatch(), Some((20, false)));
    assert!(!q.direction_up);
    assert_eq!(q.dispatch(), None);
}

#[test]
fn io_queue_merges_adjacent_blocks() {
    let mut q = IoQueue::new();
    q.submit(1, false, 0, 0);
    q.submit(2, false, 0, 0);
    q.submit(3, false, 0, 0);
    q.submit(9, true, 0, 0);
    q.submit(10, true, 0, 0);
    q.submit(11, false, 0, 0);
    // 2 folds into 1, and 3 no longer follows 1; 10 folds into 9.
    assert_eq!(q.merge_adjacent(), 2);
    assert_eq!(q.depth(), 4);
    assert_eq!(q.merge_adjacent(), 0);
}

#[test]
fn wait_queue_wakes_what_the_filter_picks() {
    let mut q = WaitQueue::new();
    q.sleep(1, 4, 100);
    q.sleep(2, 1, 200);
    q.sleep(3, 4, 300);
    assert_eq!(q.wake_filtered(|_key, flags| flags == 4), 2);
    assert_eq!(q.woken, vec![100, 300]);
    assert_eq!(q.pending_count(), 1);
    assert!(q.has_waiters_for(2));
    assert_eq!(q.wake_filtered(|_key, _flags| false), 0);
    assert_eq!(q.total_wakes(), 2);
}
