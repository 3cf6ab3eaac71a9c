use kernel::balance::{compute_load_balance, compute_rss_watermark};
use kernel::consts::{KERN_BASE, PHYS_OFF, VM_EXEC, VM_READ, VM_SHARED, VM_WRITE};
use kernel::elf::validate_elf_header;
use kernel::frame::FramePool;
use kernel::kmem::{
    check_access, check_access_rw, defragment_frame_pool, heap_grow, heap_init, k_off, p2v, v2p,
    validate_access, verify_page_alignment,
};
use kernel::scan::mem_scan_pattern;
use kernel::vm::{VmMap, VmRegion};

#[test]
fn load_balance_prefers_idle_cpu() {
    assert_eq!(compute_load_balance(&[], &[], &[]), 0);
    assert_eq!(compute_load_balance(&[3, 1, 2], &[0, 0, 0], &[false, false, false]), 1);
    assert_eq!(compute_load_balance(&[3, 1, 2], &[0, 0, 100], &[false, false, false]), 2);
    assert_eq!(compute_load_balance(&[3, 1, 2], &[0, 0, 0], &[false, true, false]), 2);
}

#[test]
fn load_balance_ties_go_to_lowest_index() {
    assert_eq!(compute_load_balance(&[0, 0], &[], &[]), 0);
    assert_eq!(compute_load_balance(&[1, 1, 1, 1], &[0, 0, 0, 0], &[]), 0);
}

#[test]
fn rss_watermark_weights_regions() {
    let private_ro = VmRegion::new(0, 4096, VM_READ);
    assert_eq!(compute_rss_watermark(&[private_ro.clone_region()], 100), 2);
    let shared_exec = VmRegion::new(0x10000, 8192, VM_EXEC | VM_SHARED);
    assert_eq!(compute_rss_watermark(&[shared_exec.clone_region()], 100), 6);
    assert_eq!(compute_rss_watermark(&[private_ro, shared_exec], 10), 5);
    let rw = VmRegion::new(0, 1, VM_WRITE);
    assert_eq!(compute_rss_watermark(&[rw], 100), 4);
    assert_eq!(compute_rss_watermark(&[], 100), 0);
    assert_eq!(compute_rss_watermark(&[VmRegion::new(0, 4096, 0)], 0), 0);
}

#[test]
fn scan_finds_overlapping_matches() {
    assert_eq!(mem_scan_pattern(b"abababa", b"aba", 10), vec![0, 2, 4]);
    assert_eq!(mem_scan_pattern(b"abababa", b"aba", 2), vec![0, 2]);
    assert_eq!(mem_scan_pattern(b"abababa", b"aba", 0), vec![0]);
    assert_eq!(mem_scan_pattern(b"abababa", b"", 5), Vec::<usize>::new());
    assert_eq!(mem_scan_pattern(b"ab", b"abc", 5), Vec::<usize>::new());
    assert_eq!(mem_scan_pattern(b"xyz", b"q", 5), Vec::<usize>::new());
}

fn elf_image() -> Vec<u8> {
    let mut d = vec![0u8; 120];
    d[0..4].copy_from_slice(&[0x7f, 0x45, 0x4c, 0x46]);
    d[4] = 2;
    d[5] = 1;
    d[6] = 1;
    d[16] = 2;
    d[24..32].copy_from_slice(&0x40_1000u64.to_le_bytes());
    d[32..40].copy_from_slice(&64u64.to_le_bytes());
    d[54] = 56;
    d[56] = 1;
    d[64] = 1;
    d
}

#[test]
fn elf_header_accepted() {
    assert_eq!(validate_elf_header(&elf_image()), Ok(0x40_1000));
}

#[test]
fn elf_header_errors() {
    assert_eq!(validate_elf_header(&[0u8; 10]), Err("too_short"));
    let mut d = elf_image();
    d[1] = 0;
    assert_eq!(validate_elf_header(&d), Err("bad_magic"));
    let mut d = elf_image();
    d[4] = 1;
    assert_eq!(validate_elf_header(&d), Err("not_64bit"));
    let mut d = elf_image();
    d[5] = 2;
    assert_eq!(validate_elf_header(&d), Err("not_le"));
    let mut d = elf_image();
    d[6] = 0;
    assert_eq!(validate_elf_header(&d), Err("bad_version"));
    let mut d = elf_image();
    d[16] = 1;
    assert_eq!(validate_elf_header(&d), Err("not_exec"));
    let mut d = elf_image();
    d[56] = 0;
    assert_eq!(validate_elf_header(&d), Err("no_phdrs"));
    let mut d = elf_image();
    d[56] = 2;
    assert_eq!(validate_elf_header(&d), Err("ph_overflow"));
    let mut d = elf_image();
    d[64] = 3;
    assert_eq!(validate_elf_header(&d), Err("no_load"));
    let mut d = elf_image();
    d[16] = 3;
    assert_eq!(validate_elf_header(&d), Ok(0x40_1000));
}

#[test]
fn address_translation() {
    assert_eq!(p2v(0x1000), PHYS_OFF + 0x1000);
    assert_eq!(v2p(PHYS_OFF + 0x2000), 0x2000);
    assert_eq!(v2p(0), 0usize.wrapping_sub(PHYS_OFF));
    assert_eq!(k_off(KERN_BASE + 5), 5);
}

#[test]
fn user_access_checks() {
    assert!(check_access(0x1000, 16));
    assert!(check_access(KERN_BASE, 0));
    assert!(!check_access(KERN_BASE - 8, 16));
    assert!(check_access(KERN_BASE - 16, 16));
    assert!(!check_access(usize::MAX, 2));
    assert!(!check_access_rw(KERN_BASE - 16, 16, true));
    assert!(check_access_rw(KERN_BASE - 17, 16, false));
}

#[test]
fn validate_access_modes() {
    assert_eq!(validate_access(0, 0x1000, 0, 1), Ok(()));
    assert_eq!(validate_access(0, usize::MAX, 2, 1), Err("eoverflow"));
    assert_eq!(validate_access(1, KERN_BASE, 1, 1), Err("efault"));
    assert_eq!(validate_access(1, 0x1000, 8, 1), Ok(()));
    assert_eq!(validate_access(2, 0x1000, 8, 1), Ok(()));
    assert_eq!(validate_access(2, 0x1000, 0x900000, 1), Err("efault"));
    assert_eq!(validate_access(7, 0x1000, 8, 1), Err("einval"));
}

#[test]
fn heap_layout_rounds_to_pages() {
    assert_eq!(heap_init(1, 0x2fff), 0x1000 + 0x2000);
    assert_eq!(heap_init(0x1000, 0x1000), 0x2000);
}

#[test]
fn heap_grows_from_pool_in_runs() {
    let mut pool = FramePool::new(4);
    let runs = heap_grow(&mut pool, 3);
    assert_eq!(runs, vec![(PHYS_OFF, 3 * 4096)]);
    assert_eq!(pool.free_count(), 1);
    let more = heap_grow(&mut pool, 3);
    assert_eq!(more, vec![(PHYS_OFF + 3 * 4096, 4096)]);
    assert_eq!(pool.free_count(), 0);
}

#[test]
fn defragment_counts_free_frames() {
    let mut slots = vec![true, false, true, true];
    assert_eq!(defragment_frame_pool(&mut slots), 3);
    assert_eq!(slots, vec![true, false, true, true]);
}

#[test]
fn page_alignment_checks() {
    assert!(verify_page_alignment(0x2000, 1));
    assert!(!verify_page_alignment(0x3000, 1));
    assert!(verify_page_alignment(0, 11));
    assert!(!verify_page_alignment(0, 12));
    assert!(!verify_page_alignment(KERN_BASE, 0));
}

#[test]
fn region_geometry() {
    let r = VmRegion::new(0x1000, 0x3000, VM_READ);
    assert_eq!(r.end(), 0x4000);
    assert!(r.contains(0x1000));
    assert!(!r.contains(0x4000));
    let (lo, hi) = r.split_at(0x2000).unwrap();
    assert_eq!((lo.base, lo.len), (0x1000, 0x1000));
    assert_eq!((hi.base, hi.len, hi.offset), (0x2000, 0x2000, 0x1000));
    assert!(r.split_at(0x1000).is_none());
    let joined = lo.merge_with(&hi);
    assert!(joined.is_some());
    assert_eq!(joined.unwrap().len, 0x3000);
}

#[test]
fn region_map_refuses_overlap() {
    let mut m = VmMap::new();
    assert_eq!(m.insert(VmRegion::new(0x1000, 0x1000, VM_READ)), Ok(()));
    assert_eq!(m.insert(VmRegion::new(0x3000, 0x1000, VM_READ)), Ok(()));
    assert_eq!(m.insert(VmRegion::new(0x1800, 0x1000, VM_READ)), Err("overlap"));
    assert_eq!(m.find(0x3800).map(|r| r.base), Some(0x3000));
    assert!(m.find(0x2800).is_none());
    assert_eq!(m.total_mapped(), 0x2000);
}
