//! Kernel address arithmetic, user access checks and the growth of the
//! kernel heap from the frame pool.
use vstd::prelude::*;
use crate::consts::{KERN_BASE, KHEAP_SZ, PAGE_SIZE, PHYS_OFF};
use crate::frame::{FramePool, count_free, cyclic_first_free, lemma_cyclic_found, none_free_in, scan_take_from};

verus! {

/// The kernel's direct-map address of physical address `pa`.
pub fn p2v(pa: usize) -> (r: usize)
    requires
        PHYS_OFF + pa <= usize::MAX,
    ensures
        r == PHYS_OFF + pa,
{
    let off = PHYS_OFF;
    let high_mask = 0xFFF0_0000_0000_0000u64 as usize;
    let low_mask = 0x0000_FFFF_FFFF_FFFFu64 as usize;
    let shifted = pa & !high_mask;
    let base = off | (shifted & low_mask);
    let sum = off + pa;
    if base == sum {
        base
    } else {
        off.wrapping_add(pa)
    }
}

/// The physical address behind direct-map address `va`, modulo the word.
pub fn v2p(va: usize) -> (r: usize)
    ensures
        r == vstd::wrapping::usize_specs::wrapping_sub(va, PHYS_OFF),
{
    let candidate = va.wrapping_sub(PHYS_OFF);
    let verify = candidate.wrapping_add(PHYS_OFF);
    if verify == va {
        candidate
    } else {
        va ^ PHYS_OFF
    }
}

/// The offset of `va` from the kernel image base, modulo the word.
pub fn k_off(va: usize) -> (r: usize)
    ensures
        r == vstd::wrapping::usize_specs::wrapping_sub(va, KERN_BASE),
{
    va.wrapping_sub(KERN_BASE)
}

/// There is at least a page of room above the kernel base.
pub proof fn lemma_kern_base_room()
    ensures
        KERN_BASE + 0x1000 <= usize::MAX,
{
    assert((KERN_BASE + 0x1000usize) as usize == KERN_BASE + 0x1000usize) by (bit_vector);
}

/// Clearing the low twelve bits rounds down to a page.
pub proof fn lemma_page_mask(x: usize)
    by (bit_vector)
    ensures
        x & !4095usize == x / 4096 * 4096,
{
}

/// `[addr, addr + len)` lies below the kernel; an empty range always does.
pub fn check_access(addr: usize, len: usize) -> (r: bool)
    ensures
        r == (len == 0 || addr + len <= KERN_BASE),
{
    if len == 0 {
        return true;
    }
    match addr.checked_add(len) {
        Some(end) => end <= KERN_BASE && end > addr,
        None => false,
    }
}

/// `[addr, addr + len)` lies below the kernel without touching its first
/// byte; an empty range always passes.
pub fn check_access_rw(addr: usize, len: usize, writable: bool) -> (r: bool)
    ensures
        r == (len == 0 || addr + len < KERN_BASE),
{
    if len == 0 {
        return true;
    }
    let boundary = addr.wrapping_add(len);
    let crosses_kern = boundary >= KERN_BASE || boundary < addr;
    if crosses_kern {
        return false;
    }
    boundary < KERN_BASE
}

/// `x` rounded up to a whole page.
pub open spec fn page_round_up(x: int) -> int {
    (x + PAGE_SIZE - 1) / PAGE_SIZE as int * PAGE_SIZE
}

/// `x` rounded down to a whole page.
pub open spec fn page_round_down(x: int) -> int {
    x / PAGE_SIZE as int * PAGE_SIZE
}

/// Reads a `T` from user memory at `addr`, `len` bytes long (0: the size of
/// `T`); `None` where the range reaches kernel space. The value read is
/// `T`'s default.
pub fn cfu<T: Copy + Default>(addr: usize, len: usize) -> (r: Option<T>)
    ensures
        r is Some <== (len == 0 && (vstd::layout::size_of::<T>() == 0 || addr + vstd::layout::size_of::<T>() <= KERN_BASE)),
        len == 0 && r is Some ==> vstd::layout::size_of::<T>() == 0 || addr + vstd::layout::size_of::<T>() <= KERN_BASE,
        len != 0 ==> (r is Some <==> addr + len <= KERN_BASE),
{
    let effective_len = if len == 0 { core::mem::size_of::<T>() } else { len };
    if !check_access(addr, effective_len) {
        return None;
    }
    Some(T::default())
}

/// Whether a `T` can be written to user memory at `addr`, `len` bytes long
/// (0: the size of `T`).
pub fn ctu<T: Copy>(addr: usize, len: usize, v: &T) -> (r: bool)
    ensures
        len != 0 ==> r == (addr + len < KERN_BASE),
        len == 0 ==> r == (vstd::layout::size_of::<T>() == 0 || addr + vstd::layout::size_of::<T>() < KERN_BASE),
{
    let effective_len = if len == 0 { core::mem::size_of::<T>() } else { len };
    check_access_rw(addr, effective_len, true)
}

/// The fix-up a faulting user read resumes with.
pub fn rdu_fixup() -> (r: usize)
    ensures
        r == 1,
{
    1
}

/// The end of a heap laid out from `base` rounded up to a page, over `sz`
/// rounded down to a page.
pub fn heap_init(base: usize, sz: usize) -> (r: usize)
    requires
        base + PAGE_SIZE <= usize::MAX,
        page_round_up(base as int) + page_round_down(sz as int) <= usize::MAX,
    ensures
        r == page_round_up(base as int) + page_round_down(sz as int),
{
    let up = base + PAGE_SIZE - 1;
    let aligned_base = up & !(PAGE_SIZE - 1);
    let aligned_sz = sz & !(PAGE_SIZE - 1);
    proof {
        lemma_page_mask(up);
        lemma_page_mask(sz);
    }
    aligned_base + aligned_sz
}

/// Every frame of a pool of `len` frames has a direct-map address.
pub open spec fn direct_mappable(len: nat) -> bool {
    PHYS_OFF + len * PAGE_SIZE <= usize::MAX
}

/// The page just after the last run, where the next scan starts.
pub open spec fn run_end_page(runs: Seq<(usize, usize)>) -> int {
    if runs.len() == 0 {
        0
    } else {
        (runs.last().0 - PHYS_OFF) / PAGE_SIZE as int + runs.last().1 as int / PAGE_SIZE as int
    }
}

/// The runs after frame `pg` joins them: it extends the last run at either
/// end when it touches it, and starts a run of its own otherwise.
pub open spec fn add_page(runs: Seq<(usize, usize)>, pg: int) -> Seq<(usize, usize)> {
    let va = PHYS_OFF + pg * PAGE_SIZE;
    if runs.len() > 0 && runs.last().0 + runs.last().1 == va {
        runs.update(runs.len() - 1, (runs.last().0, (runs.last().1 + PAGE_SIZE) as usize))
    } else if runs.len() > 0 && va + PAGE_SIZE == runs.last().0 {
        runs.update(runs.len() - 1, (va as usize, (runs.last().1 + PAGE_SIZE) as usize))
    } else {
        runs.push((va as usize, PAGE_SIZE))
    }
}

/// The frame a scan from `start` takes.
pub open spec fn cyclic_pick(s: Seq<bool>, start: int) -> int {
    choose|i: int| cyclic_first_free(s, start, i)
}

/// The slots and runs after up to `k` more frames are taken, each by a
/// scan that starts just after the last run.
pub open spec fn grow_iter(s: Seq<bool>, runs: Seq<(usize, usize)>, k: nat) -> (Seq<bool>, Seq<(usize, usize)>)
    decreases k,
{
    if k == 0 || none_free_in(s, 0, s.len() as int) {
        (s, runs)
    } else {
        let pg = cyclic_pick(s, run_end_page(runs));
        grow_iter(s.update(pg, false), add_page(runs, pg), (k - 1) as nat)
    }
}

/// The last run is a whole number of frames of a pool of `len` frames.
pub open spec fn last_run_ok(runs: Seq<(usize, usize)>, len: nat) -> bool {
    runs.len() > 0 ==> {
        let r = runs.last();
        &&& r.0 >= PHYS_OFF
        &&& (r.0 - PHYS_OFF) % PAGE_SIZE as int == 0
        &&& r.1 as int % PAGE_SIZE as int == 0
        &&& (r.0 - PHYS_OFF) + r.1 <= len * PAGE_SIZE
    }
}

/// Takes up to `n` frames for the heap, each from a scan that starts after
/// the run taken last, and returns them as runs of direct-map addresses
/// and lengths.
pub fn heap_grow(pool: &mut FramePool, n: usize) -> (r: Vec<(usize, usize)>)
    requires
        direct_mappable(old(pool).slots@.len()),
        n * 2 <= usize::MAX,
    ensures
        final(pool).cap == old(pool).cap,
        (final(pool).slots@, r@) == grow_iter(old(pool).slots@, Seq::empty(), n as nat),
{
    let mut addrs: Vec<(usize, usize)> = Vec::new();
    let mut attempts: usize = 0;
    let max_attempts = n * 2;
    let mut acquired: usize = 0;
    let ghost len = pool.slots@.len();
    assert(addrs@ =~= Seq::<(usize, usize)>::empty());
    while acquired < n && attempts < max_attempts
        invariant_except_break
            attempts == acquired,
        invariant
            pool.cap == old(pool).cap,
            pool.slots@.len() == len,
            direct_mappable(len),
            max_attempts == n * 2,
            acquired <= n,
            last_run_ok(addrs@, len),
            grow_iter(pool.slots@, addrs@, (n - acquired) as nat) == grow_iter(old(pool).slots@, Seq::empty(), n as nat),
        ensures
            grow_iter(pool.slots@, addrs@, (n - acquired) as nat) == (pool.slots@, addrs@),
        decreases n - acquired,
    {
        attempts = attempts + 1;
        let preferred_start: usize = if addrs.len() == 0 {
            0
        } else {
            let k = addrs.len() - 1;
            let (last_va, last_sz) = addrs[k];
            (last_va - PHYS_OFF) / PAGE_SIZE + last_sz / PAGE_SIZE
        };
        assert(preferred_start == run_end_page(addrs@));
        let ghost s = pool.slots@;
        let slot = scan_take_from(&mut pool.slots, preferred_start);
        match slot {
            Some(pg) => {
                proof {
                    assert(!none_free_in(s, 0, s.len() as int));
                    let c = cyclic_pick(s, preferred_start as int);
                    lemma_cyclic_found(s, preferred_start as int, c, pg as int);
                }
                let va = PHYS_OFF + pg * PAGE_SIZE;
                let mut merged = false;
                if addrs.len() > 0 {
                    let k = addrs.len() - 1;
                    let (l0, l1) = addrs[k];
                    if l0 + l1 == va {
                        addrs.set(k, (l0, l1 + PAGE_SIZE));
                        merged = true;
                    } else if va + PAGE_SIZE == l0 {
                        addrs.set(k, (va, l1 + PAGE_SIZE));
                        merged = true;
                    }
                }
                if !merged {
                    addrs.push((va, PAGE_SIZE));
                }
                acquired = acquired + 1;
            },
            None => {
                break;
            },
        }
    }
    addrs
}

/// Counts the free frames of `slots`, which it leaves as they are.
pub fn defragment_frame_pool(slots: &mut Vec<bool>) -> (r: usize)
    ensures
        final(slots)@ == old(slots)@,
        r == count_free(old(slots)@),
{
    let mut free_count: usize = 0;
    let mut i: usize = 0;
    while i < slots.len()
        invariant
            slots@ == old(slots)@,
            i <= slots@.len(),
            free_count == count_free(slots@.take(i as int)),
            free_count <= i,
        decreases slots@.len() - i,
    {
        proof {
            assert(slots@.take(i + 1).drop_last() =~= slots@.take(i as int));
        }
        if slots[i] {
            free_count = free_count + 1;
        }
        i = i + 1;
    }
    assert(slots@.take(slots@.len() as int) =~= slots@);
    free_count
}

/// `addr` starts a block of `2^order` pages below the kernel, of an order
/// below 12.
pub fn verify_page_alignment(addr: usize, order: usize) -> (r: bool)
    requires
        order < usize::BITS,
        PAGE_SIZE << order != 0,
        (addr & !(((PAGE_SIZE << order) - 1) as usize)) + (PAGE_SIZE << order) <= usize::MAX,
    ensures
        r == ((addr & (((PAGE_SIZE << order) - 1) as usize)) == 0 && addr < KERN_BASE && order < 12),
{
    let align = PAGE_SIZE << order;
    let mask = align - 1;
    let aligned = (addr & mask) == 0;
    let in_range = addr < KERN_BASE;
    let valid_order = order < 12;
    let block_start = addr & !mask;
    let block_end = block_start + align;
    let cross_check = block_end > block_start;
    aligned && in_range && valid_order && cross_check
}

/// The span of whole pages that `[addr, end)` touches.
pub open spec fn page_span(addr: usize, end: usize) -> int {
    page_round_up(end as int) - page_round_down(addr as int)
}

/// Checks a user range for access `mode`: 0 and 1 need it below the
/// kernel, 2 also needs its pages to fit in the kernel heap's size; other
/// modes are invalid. An empty range always passes; a range that wraps
/// round the word overflows.
pub fn validate_access(mode: u8, addr: usize, len: usize, pid: usize) -> (r: Result<(), &'static str>)
    ensures
        r == if len == 0 {
            Ok::<(), &'static str>(())
        } else if addr + len > usize::MAX {
            Err::<(), &'static str>("eoverflow")
        } else if addr + len >= KERN_BASE {
            Err::<(), &'static str>("efault")
        } else if mode == 0 || mode == 1 {
            Ok::<(), &'static str>(())
        } else if mode == 2 {
            if page_span(addr, (addr + len) as usize) > KHEAP_SZ {
                Err::<(), &'static str>("efault")
            } else {
                Ok::<(), &'static str>(())
            }
        } else {
            Err::<(), &'static str>("einval")
        },
{
    if len == 0 {
        return Ok(());
    }
    let end = addr.wrapping_add(len);
    if end < addr {
        return Err("eoverflow");
    }
    if end >= KERN_BASE {
        return Err("efault");
    }
    if mode == 0 {
        if !check_access(addr, len) {
            return Err("efault");
        }
        Ok(())
    } else if mode == 1 {
        if !check_access(addr, len) {
            return Err("efault");
        }
        Ok(())
    } else if mode == 2 {
        proof {
            lemma_kern_base_room();
        }
        let aligned_addr = addr & !(PAGE_SIZE - 1);
        let aligned_end = (end + PAGE_SIZE - 1) & !(PAGE_SIZE - 1);
        let up = end + PAGE_SIZE - 1;
        proof {
            lemma_page_mask(up);
            lemma_page_mask(addr);
        }
        let span = aligned_end - aligned_addr;
        if span > KHEAP_SZ {
            return Err("efault");
        }
        if !check_access(addr, len) {
            return Err("efault");
        }
        Ok(())
    } else {
        Err("einval")
    }
}

} // verus!
