use kernel::sysno::{SYS_FUTEX, SYS_GETPID, SYS_MMAP, SYS_MUNMAP, SYS_WAIT4};
use kernel::bits::{murmurhash3_finalize, popcount64, rotate_bits};
use kernel::buddy::BuddyAllocator;
use kernel::consts::{VM_READ, VM_WRITE};
use kernel::frame::{frame_alloc, frame_dealloc, FramePool, PgFrame};
use kernel::process::{RunQueue, SchedulePolicy, SigAction, SigSet};
use kernel::vm::{AddrSpace, VmMap, VmRegion};

#[test]
fn find_free_takes_lowest_aligned_gap() {
    let mut m = VmMap::new();
    m.mmap_base = 0x1000;
    m.insert(VmRegion::new(0x1000, 0x1000, VM_READ)).unwrap();
    m.insert(VmRegion::new(0x3000, 0x1000, VM_READ)).unwrap();
    assert_eq!(m.find_free(0x1000, 0), Some(0x2000));
    assert_eq!(m.find_free(0x2000, 0), Some(0x4000));
    assert_eq!(m.find_free(0x1000, 0x4000), Some(0x4000));
    assert_eq!(m.find_free(0, 0), Some(0x1000));
}

#[test]
fn find_free_none_when_nothing_fits() {
    let m = VmMap::new();
    assert_eq!(m.find_free(kernel::consts::KERN_BASE, 0), None);
}

#[test]
fn cow_fault_on_sole_owner_ignores_pool() {
    let mut a = AddrSpace::new(1);
    a.vm_map.insert(VmRegion::new(0x1000, 0x2000, VM_READ | VM_WRITE)).unwrap();
    a.cow_pages.insert(0x1000, PgFrame::with_rc(1));
    let mut empty = FramePool::new(0);
    assert_eq!(a.handle_cow_fault(0x1234, &mut empty), Ok(0x1000));
    a.cow_pages.insert(0x1000, PgFrame::with_rc(2));
    assert_eq!(a.handle_cow_fault(0x1234, &mut empty), Err("oom"));
    assert_eq!(a.handle_cow_fault(0x5000, &mut empty), Err("segfault"));
}

#[test]
fn buddy_new_lists_blocks_largest_first() {
    let a = BuddyAllocator::new(0, 4, 2);
    assert_eq!(a.free_lists, vec![vec![], vec![], vec![0]]);
    let b = BuddyAllocator::new(0, 5, 3);
    assert_eq!(b.free_lists, vec![vec![16384], vec![], vec![0], vec![]]);
    assert_eq!(b.fragmentation_score(), 20);
    let c = BuddyAllocator::new(0x10_0000, 11, 1);
    assert_eq!(c.free_lists[1], vec![0x10_0000, 0x10_2000, 0x10_4000, 0x10_6000, 0x10_8000]);
    assert_eq!(c.free_lists[0], vec![0x10_a000]);
}

#[test]
fn buddy_free_merges_back() {
    let mut a = BuddyAllocator::new(0, 4, 2);
    let x = a.alloc_order(0).unwrap();
    assert_eq!(a.free_pages_count() + a.allocated, 4);
    a.free_order(x, 0);
    assert_eq!(a.free_lists, vec![vec![], vec![], vec![0]]);
    assert_eq!(a.allocated, 0);
}

#[test]
fn enqueue_keeps_equal_keys_in_order() {
    let mut q = RunQueue::new();
    let p = SchedulePolicy::new();
    q.enqueue(1, p.clone());
    q.enqueue(2, p.clone());
    q.enqueue(3, p.clone());
    let ids: Vec<usize> = q.queue.iter().map(|e| e.0).collect();
    assert_eq!(ids, vec![1, 2, 3]);
    let mut low = SchedulePolicy::new();
    low.prio = -100;
    q.enqueue(4, low);
    assert_eq!(q.queue[0].0, 4);
}

#[test]
fn insert_stops_before_far_regions() {
    let mut m = VmMap::new();
    m.regions.push(VmRegion::new(0x1000, 0x1000, VM_READ));
    m.regions.push(VmRegion::new(0x5000, 0x1000, VM_READ));
    m.regions.push(VmRegion::new(usize::MAX - 10, 100, VM_READ));
    assert_eq!(m.insert(VmRegion::new(0x1800, 0x100, VM_READ)), Err("overlap"));
    assert_eq!(m.insert(VmRegion::new(0x3000, 0x100, VM_READ)), Ok(()));
    assert_eq!(m.regions.len(), 4);
    assert_eq!(m.regions[1].base, 0x3000);
}

#[test]
fn set_action_on_short_table() {
    let mut s = SigSet::new();
    s.actions.truncate(12);
    s.set_action(11, SigAction { handler: 7, flags: 0, mask: 0 });
    assert_eq!(s.actions[11].handler, 7);
    s.set_action(9, SigAction { handler: 8, flags: 0, mask: 0 });
    assert_eq!(s.actions[9].handler, 0);
}

#[test]
fn frame_round_trip() {
    let mut p = FramePool::new(3);
    let before = p.slots.clone();
    let pa = frame_alloc(&mut p, 5).unwrap();
    assert_ne!(p.slots, before);
    frame_dealloc(&mut p, pa);
    assert_eq!(p.slots, before);
    frame_dealloc(&mut p, pa + 1);
    assert_eq!(p.slots, before);
}

#[test]
fn fmix_and_rotate_laws_on_values() {
    assert_eq!(murmurhash3_finalize(0), 0);
    assert_ne!(murmurhash3_finalize(1), murmurhash3_finalize(2));
    let r = rotate_bits(0xABCD, 3, 8);
    assert_eq!(r & !0xFF, 0);
    assert_eq!(rotate_bits(r, 5, 8), 0xCD);
}

#[test]
fn cache_knows_what_it_holds() {
    let mut c = kernel::blockcache::BlockCache::new(4);
    assert!(!c.cached(9));
    c.fetch(9, 0).unwrap();
    assert!(c.cached(9));
}

#[test]
fn rotation_keeps_set_bits() {
    for (v, a, w) in [(0xABCDu64, 3u32, 8u32), (0xF0F0_0001, 7, 32), (u64::MAX - 5, 13, 64), (0b1011, 1, 4)] {
        let mask = if w == 64 { u64::MAX } else { (1u64 << w) - 1 };
        assert_eq!(popcount64(rotate_bits(v, a, w)), popcount64(v & mask));
    }
}

#[test]
fn buddy_pages_stay_accounted() {
    let mut a = BuddyAllocator::new(0, 11, 3);
    let x = a.alloc_order(1).unwrap();
    let y = a.alloc_order(0).unwrap();
    assert_eq!(a.free_pages_count() + a.allocated, 11);
    a.free_order(x, 1);
    assert_eq!(a.free_pages_count() + a.allocated, 11);
    a.free_order(y, 0);
    assert_eq!(a.free_pages_count() + a.allocated, 11);
    assert_eq!(a.allocated, 0);
}

#[test]
fn admissible_calls_and_overflowing_ones() {
    let k = kernel::kernel::Kernel::new(16);
    assert!(k.syscall_admissible(SYS_GETPID, 0, 0, 0, 0, 0, 0));
    assert!(k.syscall_admissible(SYS_MMAP, 0, 0x2000, 3, 0, 0, 0));
    assert!(!k.syscall_admissible(SYS_MMAP, 0, usize::MAX - 10, 3, 0, 0, 0));
    assert!(k.syscall_admissible(SYS_MUNMAP, 0x1000, 0x1000, 0, 0, 0, 0));
    assert!(!k.syscall_admissible(SYS_MUNMAP, usize::MAX - 0xfff, 0x3000, 0, 0, 0, 0));
    assert!(!k.syscall_admissible(SYS_WAIT4, isize::MIN as usize, 0, 0, 0, 0, 0));
    assert!(k.syscall_admissible(SYS_WAIT4, usize::MAX, 0, 0, 0, 0, 0));
    assert!(!k.syscall_admissible(SYS_FUTEX, 0, 3, usize::MAX, 0, 0, 1));
    assert!(k.syscall_admissible(SYS_FUTEX, 0, 1, usize::MAX, 0, 0, 1));
}

#[test]
fn cow_pages_through_fault_fork_and_unmap() {
    let mut a = AddrSpace::new(1);
    a.vm_map.insert(VmRegion::new(0x1000, 0x4000, VM_READ | VM_WRITE)).unwrap();
    let mut pool = FramePool::new(8);
    assert!(a.handle_cow_fault(0x1010, &mut pool).is_ok());
    assert!(a.handle_cow_fault(0x3020, &mut pool).is_ok());
    assert_eq!(a.rss_pages(), 2);
    assert_eq!(a.cow_sharers(), 0);
    let mut child = AddrSpace::fork_from(&mut a, 2);
    assert_eq!(a.cow_pages.get(&0x1000).map(|f| f.count()), Some(2));
    assert_eq!(child.cow_pages.get(&0x3000).map(|f| f.count()), Some(2));
    assert_eq!(a.cow_sharers(), 2);
    assert_eq!(child.unmap_range(0x3000, 0x1000), 1 + 1);
    assert_eq!(child.rss_pages(), 1);
    assert!(child.cow_pages.get(&0x3000).is_none());
    assert_eq!(a.rss_pages(), 2);
}
