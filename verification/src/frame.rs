//! Physical frames: zones with watermarks, the frame pool (one flag per
//! frame, `true` when free), contiguous allocation, copy-on-write pages and
//! frame reference counts.
use vstd::prelude::*;
use crate::consts::{MEM_OFF, PAGE_SIZE};
use crate::sync::KernLock;

verus! {

// ---------------------------------------------------------------- zones

pub struct ZoneInfo {
    pub zone_id: usize,
    pub base_pfn: usize,
    pub page_count: usize,
    pub free_count: usize,
    pub low_watermark: usize,
    pub high_watermark: usize,
    pub managed: bool,
}

/// Memory pressure of a zone, in percent: 0 at or above the high
/// watermark, 100 at or below the low one, linear in between.
pub open spec fn pressure_spec(free: usize, low: usize, high: usize) -> int {
    if free >= high {
        0
    } else if free <= low {
        100
    } else {
        ((high - free) * 100) / ((high - low) as int)
    }
}

impl ZoneInfo {
    pub fn new(id: usize, base: usize, count: usize, low: usize, high: usize) -> (r: Self)
        ensures
            r == (ZoneInfo {
                zone_id: id,
                base_pfn: base,
                page_count: count,
                free_count: count,
                low_watermark: low,
                high_watermark: high,
                managed: true,
            }),
    {
        ZoneInfo {
            zone_id: id,
            base_pfn: base,
            page_count: count,
            free_count: count,
            low_watermark: low,
            high_watermark: high,
            managed: true,
        }
    }

    pub fn zone_can_alloc(&self) -> (r: bool)
        ensures
            r == (self.free_count > self.low_watermark),
    {
        self.free_count > self.low_watermark
    }

    pub fn zone_pressure(&self) -> (r: usize)
        requires
            self.low_watermark < self.free_count < self.high_watermark ==> (self.high_watermark
                - self.free_count) * 100 <= usize::MAX,
        ensures
            r == pressure_spec(self.free_count, self.low_watermark, self.high_watermark),
    {
        let free = self.free_count;
        if free >= self.high_watermark {
            return 0;
        }
        if free <= self.low_watermark {
            return 100;
        }
        let range = self.high_watermark - self.low_watermark;
        let deficit = self.high_watermark - free;
        (deficit * 100) / range
    }

    pub fn reclaim_target(&self) -> (r: usize)
        ensures
            r == if self.free_count >= self.high_watermark {
                0
            } else {
                self.high_watermark - self.free_count
            },
    {
        let free = self.free_count;
        if free >= self.high_watermark {
            return 0;
        }
        self.high_watermark - free
    }

    pub fn contains_pfn(&self, pfn: usize) -> (r: bool)
        requires
            pfn >= self.base_pfn ==> self.base_pfn + self.page_count <= usize::MAX,
        ensures
            r == (self.base_pfn <= pfn < self.base_pfn + self.page_count),
    {
        pfn >= self.base_pfn && pfn < self.base_pfn + self.page_count
    }
}

// ---------------------------------------------------------- slot scans

/// The number of free slots.
pub open spec fn count_free(s: Seq<bool>) -> nat
    decreases s.len(),
{
    if s.len() == 0 {
        0
    } else {
        count_free(s.drop_last()) + if s.last() { 1nat } else { 0nat }
    }
}

/// No slot of `[lo, hi)` is free.
pub open spec fn none_free_in(s: Seq<bool>, lo: int, hi: int) -> bool {
    forall|j: int| lo <= j < hi ==> !#[trigger] s[j]
}

/// `i` is the first free slot of `[lo, hi)`.
pub open spec fn first_free_in(s: Seq<bool>, lo: int, hi: int, i: int) -> bool {
    &&& lo <= i < hi
    &&& s[i]
    &&& none_free_in(s, lo, i)
}

/// `i` is the first free slot met by a scan that starts at `start`, runs to
/// the end and wraps around to 0.
pub open spec fn cyclic_first_free(s: Seq<bool>, start: int, i: int) -> bool {
    ||| first_free_in(s, start, s.len() as int, i)
    ||| (none_free_in(s, start, s.len() as int) && first_free_in(s, 0, start, i))
}

/// What a cyclic scan from `start` returns and leaves: the first free slot
/// met is taken; when there is none, nothing changes.
pub open spec fn cyclic_take(old_s: Seq<bool>, new_s: Seq<bool>, start: int, r: Option<usize>) -> bool {
    match r {
        None => none_free_in(old_s, 0, old_s.len() as int) && new_s == old_s,
        Some(i) => cyclic_first_free(old_s, start, i as int) && new_s == old_s.update(i as int, false),
    }
}

/// A frame taken by a scan was free before and is taken after, and putting
/// it back leaves the pool as it was; the pool has one free frame fewer.
pub proof fn law_take_then_put(s0: Seq<bool>, s1: Seq<bool>, start: int, i: usize)
    requires
        0 <= start <= s0.len(),
        cyclic_take(s0, s1, start, Some(i)),
    ensures
        i < s0.len(),
        s0[i as int],
        !s1[i as int],
        s1.update(i as int, true) == s0,
        count_free(s1) + 1 == count_free(s0),
{
    assert(first_free_in(s0, start, s0.len() as int, i as int) || first_free_in(s0, 0, start, i as int));
    assert(s1 == s0.update(i as int, false));
    assert(s1.update(i as int, true) =~= s0);
    lemma_count_free_update(s0, i as int);
}

proof fn lemma_count_free_update(s: Seq<bool>, i: int)
    requires
        0 <= i < s.len(),
        s[i],
    ensures
        count_free(s.update(i, false)) + 1 == count_free(s),
    decreases s.len(),
{
    let t = s.update(i, false);
    if i == s.len() - 1 {
        assert(t.drop_last() =~= s.drop_last());
    } else {
        assert(t.drop_last() =~= s.drop_last().update(i, false));
        lemma_count_free_update(s.drop_last(), i);
    }
}

/// Takes the first free slot of `slots` met when scanning from `start`
/// to the end and then from 0 up to `start`.
pub(crate) fn scan_take_from(slots: &mut Vec<bool>, start: usize) -> (r: Option<usize>)
    requires
        start <= old(slots).len(),
    ensures
        cyclic_take(old(slots)@, final(slots)@, start as int, r),
{
    let len = slots.len();
    let mut i = start;
    while i < len
        invariant
            start <= i <= len,
            len == slots.len(),
            slots@ == old(slots)@,
            none_free_in(slots@, start as int, i as int),
        decreases len - i,
    {
        if slots[i] {
            slots.set(i, false);
            return Some(i);
        }
        i += 1;
    }
    let mut i: usize = 0;
    while i < start
        invariant
            i <= start <= len,
            len == slots.len(),
            slots@ == old(slots)@,
            none_free_in(slots@, start as int, len as int),
            none_free_in(slots@, 0, i as int),
        decreases start - i,
    {
        if slots[i] {
            slots.set(i, false);
            return Some(i);
        }
        i += 1;
    }
    assert(none_free_in(slots@, 0, len as int)) by {
        assert forall|j: int| 0 <= j < len implies !#[trigger] slots@[j] by {
            if j >= start {
            }
        }
    }
    None
}

// ------------------------------------------------------------ windows

/// The `sz` slots from `start` on are all free.
pub open spec fn window_free(s: Seq<bool>, start: int, sz: int) -> bool {
    &&& 0 <= start
    &&& start + sz <= s.len()
    &&& forall|j: int| start <= j < start + sz ==> #[trigger] s[j]
}

/// `start` is the lowest multiple of `a` whose window of `sz` slots is free.
pub open spec fn first_window(s: Seq<bool>, sz: int, a: int, start: int) -> bool {
    &&& start % a == 0
    &&& window_free(s, start, sz)
    &&& forall|t: int| 0 <= t < start && t % a == 0 ==> !#[trigger] window_free(s, t, sz)
}

/// No multiple of `a` has a free window of `sz` slots.
pub open spec fn no_window(s: Seq<bool>, sz: int, a: int) -> bool {
    forall|t: int| 0 <= t && t % a == 0 ==> !#[trigger] window_free(s, t, sz)
}

/// The slots after `[start, start + sz)` is taken.
pub open spec fn take_window(s: Seq<bool>, start: int, sz: int) -> Seq<bool> {
    Seq::new(s.len(), |j: int| if start <= j < start + sz { false } else { s[j] })
}

/// Checks whether the window `[start, start + sz)` is free; when it is not,
/// returns the first slot in it that is taken.
fn find_taken(slots: &Vec<bool>, start: usize, sz: usize) -> (r: Option<usize>)
    requires
        start + sz <= slots.len(),
    ensures
        r is None ==> window_free(slots@, start as int, sz as int),
        r matches Some(j) ==> start <= j < start + sz && !slots@[j as int] && forall|k: int|
            start <= k < j ==> #[trigger] slots@[k],
{
    let mut j = start;
    while j < start + sz
        invariant
            start <= j <= start + sz,
            start + sz <= slots.len(),
            forall|k: int| start <= k < j ==> #[trigger] slots@[k],
        decreases start + sz - j,
    {
        if !slots[j] {
            return Some(j);
        }
        j += 1;
    }
    None
}

/// Marks the slots of `[start, start + sz)` taken.
fn take_range(slots: &mut Vec<bool>, start: usize, sz: usize)
    requires
        start + sz <= old(slots).len(),
    ensures
        final(slots)@ == take_window(old(slots)@, start as int, sz as int),
{
    let ghost orig = slots@;
    let mut j = start;
    while j < start + sz
        invariant
            start <= j <= start + sz,
            start + sz <= orig.len(),
            start + sz <= slots.len(),
            slots@.len() == orig.len(),
            forall|k: int| 0 <= k < orig.len() ==> #[trigger] slots@[k] == if start <= k < j {
                false
            } else {
                orig[k]
            },
        decreases start + sz - j,
    {
        slots.set(j, false);
        j += 1;
    }
    assert(slots@ =~= take_window(orig, start as int, sz as int));
}

// --------------------------------------------------------- frame pool

pub struct FramePool {
    pub slots: Vec<bool>,
    pub cap: usize,
}

impl FramePool {
    pub fn new(n: usize) -> (r: Self)
        ensures
            r.slots@ == Seq::new(n as nat, |i: int| true),
            r.cap == n,
    {
        let mut slots: Vec<bool> = Vec::new();
        let mut i: usize = 0;
        while i < n
            invariant
                i <= n,
                slots@ == Seq::new(i as nat, |k: int| true),
            decreases n - i,
        {
            slots.push(true);
            i += 1;
            assert(slots@ =~= Seq::new(i as nat, |k: int| true));
        }
        FramePool { slots, cap: n }
    }

    /// Takes a frame under the big kernel lock, as `id`.
    pub fn get(&mut self, gkl: &mut KernLock, id: usize) -> (r: Option<usize>)
        requires
            old(gkl).can_enter(id),
        ensures
            cyclic_take(old(self).slots@, final(self).slots@, 0, r),
            final(self).cap == old(self).cap,
            *final(gkl) == old(gkl).enter_spec(id).leave_spec(),
    {
        gkl.enter(id);
        let r = self.get_inner();
        gkl.leave();
        r
    }

    /// Takes the lowest free frame.
    pub fn get_inner(&mut self) -> (r: Option<usize>)
        ensures
            cyclic_take(old(self).slots@, final(self).slots@, 0, r),
            final(self).cap == old(self).cap,
    {
        scan_take_from(&mut self.slots, 0)
    }

    /// Takes the lowest run of `sz` free frames that starts at a multiple
    /// of `2^align_log2`.
    pub fn get_contig(&mut self, sz: usize, align_log2: usize) -> (r: Option<usize>)
        requires
            align_log2 < usize::BITS,
        ensures
            final(self).cap == old(self).cap,
            ({
                let a = (1usize << align_log2) as int;
                match r {
                    Some(s) => first_window(old(self).slots@, sz as int, a, s as int)
                        && final(self).slots@ == take_window(old(self).slots@, s as int, sz as int),
                    None => no_window(old(self).slots@, sz as int, a) && final(self).slots@
                        == old(self).slots@,
                }
            }),
    {
        let a: usize = 1usize << align_log2;
        assert(a > 0) by (bit_vector) requires a == 1usize << align_log2, align_log2 < usize::BITS;
        let len = self.slots.len();
        let mut start: usize = 0;
        loop
            invariant
                a > 0,
                a == 1usize << align_log2,
                len == self.slots.len(),
                self.slots@ == old(self).slots@,
                self.cap == old(self).cap,
                start % a == 0,
                forall|t: int| 0 <= t < start && t % (a as int) == 0 ==> !#[trigger] window_free(self.slots@, t, sz as int),
            decreases len + 1 - start,
        {
            if start > len || sz > len - start {
                proof {
                    assert forall|t: int| 0 <= t && t % (a as int) == 0 implies !#[trigger] window_free(self.slots@, t, sz as int) by {
                        if t >= start {
                        }
                    }
                }
                return None;
            }
            match find_taken(&self.slots, start, sz) {
                None => {
                    take_range(&mut self.slots, start, sz);
                    return Some(start);
                }
                Some(j) => {
                    assert(!window_free(self.slots@, start as int, sz as int));
                }
            }
            if a > len - start {
                proof {
                    assert forall|t: int| 0 <= t && t % (a as int) == 0 implies !#[trigger] window_free(self.slots@, t, sz as int) by {
                        if t > start {
                            lemma_next_multiple(start as int, t, a as int);
                        }
                    }
                }
                return None;
            }
            proof {
                assert forall|t: int| 0 <= t < start + a && t % (a as int) == 0 implies !#[trigger] window_free(self.slots@, t, sz as int) by {
                    if t > start {
                        lemma_next_multiple(start as int, t, a as int);
                    }
                }
                vstd::arithmetic::div_mod::lemma_mod_adds(start as int, a as int, a as int);
                vstd::arithmetic::div_mod::lemma_mod_self_0(a as int);
            }
            start = start + a;
        }
    }

    pub fn put(&mut self, idx: usize)
        ensures
            final(self).cap == old(self).cap,
            final(self).slots@ == if idx < old(self).slots@.len() {
                old(self).slots@.update(idx as int, true)
            } else {
                old(self).slots@
            },
    {
        if idx < self.slots.len() {
            self.slots.set(idx, true);
        }
    }

    pub fn avail(&self, idx: usize) -> (r: bool)
        ensures
            r == (idx < self.slots@.len() && self.slots@[idx as int]),
    {
        idx < self.slots.len() && self.slots[idx]
    }

    pub fn free_count(&self) -> (r: usize)
        ensures
            r == count_free(self.slots@),
    {
        let mut n: usize = 0;
        let mut i: usize = 0;
        while i < self.slots.len()
            invariant
                i <= self.slots.len(),
                n == count_free(self.slots@.subrange(0, i as int)),
                n <= i,
            decreases self.slots.len() - i,
        {
            proof {
                assert(self.slots@.subrange(0, i as int + 1).drop_last() =~= self.slots@.subrange(0, i as int));
            }
            if self.slots[i] {
                n += 1;
            }
            i += 1;
        }
        assert(self.slots@.subrange(0, i as int) =~= self.slots@);
        n
    }

    /// Takes the first free frame of the zone's range, when the zone is
    /// above its low watermark; the zone's free count goes down by one.
    pub fn get_zone_aware(&mut self, zone: &mut ZoneInfo) -> (r: Option<usize>)
        requires
            old(zone).zone_can_alloc_spec() ==> old(zone).base_pfn + old(zone).page_count <= usize::MAX,
        ensures
            final(self).cap == old(self).cap,
            ({
                let s = old(self).slots@;
                let lo = old(zone).base_pfn as int;
                let hi = min_int(old(zone).base_pfn + old(zone).page_count, s.len() as int);
                if !old(zone).zone_can_alloc_spec() {
                    r is None && final(self).slots@ == s && *final(zone) == *old(zone)
                } else {
                    match r {
                        None => none_free_in(s, lo, hi) && final(self).slots@ == s && *final(zone) == *old(zone),
                        Some(i) => first_free_in(s, lo, hi, i as int)
                            && final(self).slots@ == s.update(i as int, false)
                            && *final(zone) == (ZoneInfo {
                                free_count: vstd::wrapping::usize_specs::wrapping_sub(old(zone).free_count, 1),
                                ..*old(zone)
                            }),
                    }
                }
            }),
    {
        if !zone.zone_can_alloc() {
            return None;
        }
        let base = zone.base_pfn;
        let limit = base + zone.page_count;
        let hi = if limit < self.slots.len() { limit } else { self.slots.len() };
        let mut i = base;
        while i < hi
            invariant
                base <= i,
                hi <= self.slots.len(),
                base == old(zone).base_pfn,
                hi == min_int(old(zone).base_pfn + old(zone).page_count, self.slots@.len() as int),
                self.slots@ == old(self).slots@,
                self.cap == old(self).cap,
                *zone == *old(zone),
                old(zone).free_count > old(zone).low_watermark,
                none_free_in(self.slots@, base as int, i as int),
            decreases hi - i,
        {
            if self.slots[i] {
                self.slots.set(i, false);
                zone.free_count = zone.free_count.wrapping_sub(1);
                assert(first_free_in(old(self).slots@, base as int, hi as int, i as int));
                assert(old(zone).zone_can_alloc_spec());
                return Some(i);
            }
            i += 1;
        }
        None
    }

    pub fn put_zone_aware(&mut self, idx: usize, zone: &mut ZoneInfo)
        ensures
            final(self).cap == old(self).cap,
            idx < old(self).slots@.len() ==> final(self).slots@ == old(self).slots@.update(idx as int, true)
                && *final(zone) == (ZoneInfo {
                    free_count: vstd::wrapping::usize_specs::wrapping_add(old(zone).free_count, 1),
                    ..*old(zone)
                }),
            idx >= old(self).slots@.len() ==> final(self).slots@ == old(self).slots@ && *final(zone) == *old(zone),
    {
        if idx < self.slots.len() {
            self.slots.set(idx, true);
            zone.free_count = zone.free_count.wrapping_add(1);
        }
    }

    /// Takes the first `count` free frames (all of them if fewer are free),
    /// in increasing order.
    pub fn batch_alloc(&mut self, count: usize) -> (r: Vec<usize>)
        ensures
            final(self).cap == old(self).cap,
            batch_taken(old(self).slots@, final(self).slots@, count as int, r@),
    {
        let ghost orig = self.slots@;
        let mut result: Vec<usize> = Vec::new();
        let mut i: usize = 0;
        while i < self.slots.len()
            invariant
                i <= self.slots.len(),
                self.slots@.len() == orig.len(),
                self.cap == old(self).cap,
                result@.len() <= count,
                orig == old(self).slots@,
                batch_prefix(orig, self.slots@, i as int, result@),
            decreases self.slots.len() - i,
        {
            if result.len() >= count {
                assert(batch_prefix(old(self).slots@, self.slots@, i as int, result@));
                return result;
            }
            if self.slots[i] {
                let ghost before = self.slots@;
                let ghost taken = result@;
                self.slots.set(i, false);
                result.push(i);
                proof {
                    assert(result@ == taken.push(i));
                    assert forall|j: usize| #[trigger] result@.contains(j) == (taken.contains(j) || j == i) by {
                        if result@.contains(j) {
                            let k = choose|k: int| 0 <= k < result@.len() && result@[k] == j;
                            if k < taken.len() {
                                assert(taken[k] == j);
                            }
                        }
                        if taken.contains(j) {
                            let k = choose|k: int| 0 <= k < taken.len() && taken[k] == j;
                            assert(result@[k] == j);
                        }
                        if j == i {
                            assert(result@[taken.len() as int] == j);
                        }
                    }
                    assert forall|j: int| 0 <= j < self.slots@.len() implies #[trigger] self.slots@[j] == (orig[j] && !result@.contains(j as usize)) by {
                        if j != i {
                            assert(self.slots@[j] == before[j]);
                        }
                    }
                    assert forall|j: int| 0 <= j < i + 1 && orig[j] implies result@.contains(j as usize) by {
                        if j < i {
                            assert(taken.contains(j as usize));
                        }
                    }
                }
            } else {
                proof {
                    assert forall|j: int| 0 <= j < i + 1 && orig[j] implies result@.contains(j as usize) by {
                        if j == i {
                            assert(self.slots@[j] == (orig[j] && !result@.contains(j as usize)));
                        }
                    }
                }
            }
            i += 1;
        }
        result
    }
}

pub open spec fn min_int(a: int, b: int) -> int {
    if a < b { a } else { b }
}

impl ZoneInfo {
    pub open spec fn zone_can_alloc_spec(&self) -> bool {
        self.free_count > self.low_watermark
    }
}

/// `taken` lists, in increasing order, exactly the slots below `upto` that
/// were free in `old_s`; those are taken in `new_s` and nothing else moved.
pub open spec fn batch_prefix(old_s: Seq<bool>, new_s: Seq<bool>, upto: int, taken: Seq<usize>) -> bool {
    &&& new_s.len() == old_s.len()
    &&& forall|k: int| 0 <= k < taken.len() ==> (#[trigger] taken[k]) < upto && old_s[taken[k] as int]
    &&& forall|k: int, l: int| 0 <= k < l < taken.len() ==> #[trigger] taken[k] < #[trigger] taken[l]
    &&& forall|j: int| 0 <= j < upto && old_s[j] ==> taken.contains(j as usize)
    &&& forall|j: int| 0 <= j < new_s.len() ==> #[trigger] new_s[j] == (old_s[j] && !taken.contains(j as usize))
}

/// What taking a batch of `count` frames does: `taken` holds the first
/// `count` free slots (all of them when fewer are free), in increasing order.
pub open spec fn batch_taken(old_s: Seq<bool>, new_s: Seq<bool>, count: int, taken: Seq<usize>) -> bool {
    &&& taken.len() <= count
    &&& taken.len() < count ==> batch_prefix(old_s, new_s, old_s.len() as int, taken)
    &&& taken.len() == count ==> exists|upto: int| 0 <= upto <= old_s.len() && #[trigger] batch_prefix(old_s, new_s, upto, taken)
}

/// Between `start` and the next multiple of `a` above it there is none.
proof fn lemma_next_multiple(start: int, t: int, a: int)
    requires
        0 <= start < t,
        a > 0,
        start % a == 0,
        t % a == 0,
    ensures
        t >= start + a,
{
    vstd::arithmetic::div_mod::lemma_fundamental_div_mod(start, a);
    vstd::arithmetic::div_mod::lemma_fundamental_div_mod(t, a);
    let qs = start / a;
    let qt = t / a;
    assert(start == a * qs);
    assert(t == a * qt);
    assert(qt >= qs + 1) by (nonlinear_arith)
        requires start == a * qs, t == a * qt, start < t, a > 0;
    assert(a * qt >= a * (qs + 1)) by (nonlinear_arith)
        requires qt >= qs + 1, a > 0;
    assert(a * (qs + 1) == a * qs + a) by (nonlinear_arith);
}

// ------------------------------------------------------ frame addresses

/// The physical address of frame `id`, when it fits in a word.
pub open spec fn frame_addr(id: int) -> Option<usize> {
    if id * PAGE_SIZE + MEM_OFF <= usize::MAX {
        Some((id * PAGE_SIZE + MEM_OFF) as usize)
    } else {
        None
    }
}

/// Where a scan of `len` slots driven by the clock value `clk` starts.
pub open spec fn scan_start(clk: usize, len: nat) -> int {
    (clk % (if len > 0 { len as usize } else { 1usize })) as int
}

fn frame_of(id: usize) -> (r: Option<usize>)
    ensures
        r == frame_addr(id as int),
{
    match id.checked_mul(PAGE_SIZE) {
        Some(v) => v.checked_add(MEM_OFF),
        None => None,
    }
}

/// A cyclic scan of `s` from any start finds a frame exactly when one is
/// free, and the frame it finds is unique.
pub proof fn lemma_cyclic_found(s: Seq<bool>, start: int, i: int, k: int)
    requires
        0 <= start <= s.len(),
        cyclic_first_free(s, start, i),
        cyclic_first_free(s, start, k),
    ensures
        i == k,
{
}

/// Takes the first free frame met by a scan that starts where the clock
/// value `clk` points and wraps around, and returns its address. A frame
/// whose address would not fit in a word is still taken, and `None` is
/// returned for it.
pub fn frame_alloc(pool: &mut FramePool, clk: usize) -> (r: Option<usize>)
    ensures
        final(pool).cap == old(pool).cap,
        ({
            let s = old(pool).slots@;
            let start = scan_start(clk, s.len());
            &&& none_free_in(s, 0, s.len() as int) ==> r is None && final(pool).slots@ == s
            &&& !none_free_in(s, 0, s.len() as int) ==> exists|i: int|
                #[trigger] cyclic_first_free(s, start, i) && final(pool).slots@ == s.update(i, false)
                    && r == frame_addr(i)
        }),
{
    let len = pool.slots.len();
    let m = if len > 0 { len } else { 1 };
    let start = clk % m;
    let taken = scan_take_from(&mut pool.slots, start);
    match taken {
        Some(id) => {
            let r = frame_of(id);
            proof {
                let s = old(pool).slots@;
                assert(start as int == scan_start(clk, s.len()));
                assert(cyclic_first_free(s, start as int, id as int));
                assert(s[id as int]);
            }
            r
        }
        None => None,
    }
}

/// A frame that `frame_alloc` hands out, given back to `frame_dealloc`,
/// leaves the pool as it was: its address maps back to the slot taken,
/// which was free before.
pub proof fn law_alloc_then_dealloc(s0: Seq<bool>, start: int, i: int, pa: usize)
    requires
        0 <= start <= s0.len(),
        cyclic_first_free(s0, start, i),
        frame_addr(i) == Some(pa),
    ensures
        pa >= MEM_OFF,
        (pa - MEM_OFF) % (PAGE_SIZE as int) == 0,
        (pa - MEM_OFF) / (PAGE_SIZE as int) == i,
        0 <= i < s0.len(),
        s0.update(i, false).update((pa - MEM_OFF) / (PAGE_SIZE as int), true) == s0,
{
    assert(first_free_in(s0, start, s0.len() as int, i) || first_free_in(s0, 0, start, i));
    assert((i * PAGE_SIZE) % (PAGE_SIZE as int) == 0 && (i * PAGE_SIZE) / (PAGE_SIZE as int) == i) by (nonlinear_arith)
        requires
            i >= 0;
    assert(s0.update(i, false).update(i, true) =~= s0);
}

/// Gives back the frame at physical address `target`; an address below the
/// frame area, not on a frame boundary or past the pool is ignored.
pub fn frame_dealloc(pool: &mut FramePool, target: usize)
    ensures
        final(pool).cap == old(pool).cap,
        ({
            let s = old(pool).slots@;
            let idx = (target - MEM_OFF) / (PAGE_SIZE as int);
            if target >= MEM_OFF && (target - MEM_OFF) % (PAGE_SIZE as int) == 0 && idx < s.len() {
                final(pool).slots@ == s.update(idx, true)
            } else {
                final(pool).slots@ == s
            }
        }),
{
    if target < MEM_OFF {
        return;
    }
    let idx = (target - MEM_OFF) / PAGE_SIZE;
    let remainder = (target - MEM_OFF) % PAGE_SIZE;
    if remainder != 0 {
        return;
    }
    if idx < pool.slots.len() {
        pool.slots.set(idx, true);
    }
}

/// Every frame of the pool has a physical address that fits in a word.
pub open spec fn addressable(pool: &FramePool) -> bool {
    pool.slots@.len() * PAGE_SIZE + MEM_OFF <= usize::MAX
}

/// The alignment, in frames, that `frame_alloc_contig` uses for `align`.
pub open spec fn contig_alignment(align: usize) -> int {
    if align < 1 { 1 } else { (1usize << align) as int }
}

/// Takes the lowest run of `sz` free frames that starts at a multiple of
/// `2^align` (of 1 when `align` is 0) and returns the address of its first
/// frame. An empty request gets `None`.
pub fn frame_alloc_contig(pool: &mut FramePool, sz: usize, align: usize) -> (r: Option<usize>)
    requires
        align < usize::BITS,
        addressable(old(pool)),
    ensures
        final(pool).cap == old(pool).cap,
        ({
            let s = old(pool).slots@;
            let a = contig_alignment(align);
            match r {
                None => final(pool).slots@ == s && (sz == 0 || no_window(s, sz as int, a)),
                Some(pa) => sz > 0 && exists|st: int|
                    #[trigger] first_window(s, sz as int, a, st) && pa == st * PAGE_SIZE + MEM_OFF
                        && final(pool).slots@ == take_window(s, st, sz as int),
            }
        }),
{
    if sz == 0 {
        return None;
    }
    let total = pool.slots.len();
    let alignment: usize = if align < 1 { 1 } else { 1usize << align };
    assert(alignment > 0 && alignment & ((alignment - 1) as usize) == 0 && ((alignment + alignment - 1) as usize)
        == alignment + alignment - 1) by (bit_vector)
        requires
            alignment == 1usize || alignment == 1usize << align,
            align < usize::BITS;
    let mut start: usize = 0;
    while start <= total && sz <= total - start
        invariant
            alignment > 0,
            alignment & ((alignment - 1) as usize) == 0,
            alignment + alignment - 1 <= usize::MAX,
            alignment == contig_alignment(align),
            total == pool.slots.len(),
            total * PAGE_SIZE + MEM_OFF <= usize::MAX,
            pool.slots@ == old(pool).slots@,
            pool.cap == old(pool).cap,
            sz > 0,
            start <= total + alignment,
            forall|t: int| 0 <= t < start && t % (alignment as int) == 0 ==> !#[trigger] window_free(pool.slots@, t, sz as int),
        decreases total + alignment + 1 - start,
    {
        if start % alignment != 0 {
            let next = (start + alignment) & !(alignment - 1);
            proof {
                crate::bits::lemma_align_down_bits((start + alignment) as usize, alignment, next);
                assert forall|t: int| 0 <= t < next && t % (alignment as int) == 0 implies !#[trigger] window_free(pool.slots@, t, sz as int) by {
                    if t >= start {
                        lemma_next_multiple(t, next as int, alignment as int);
                    }
                }
            }
            start = next;
            continue;
        }
        match find_taken(&pool.slots, start, sz) {
            None => {
                take_range(&mut pool.slots, start, sz);
                assert(first_window(old(pool).slots@, sz as int, alignment as int, start as int));
                return Some(start * PAGE_SIZE + MEM_OFF);
            }
            Some(j) => {
                proof {
                    assert forall|t: int| 0 <= t < j + 1 && t % (alignment as int) == 0 implies !#[trigger] window_free(pool.slots@, t, sz as int) by {
                        if t >= start {
                            assert(!pool.slots@[j as int]);
                        }
                    }
                }
                start = j + 1;
            }
        }
    }
    None
}

// ------------------------------------------------------ shared pages

pub struct PgFrame {
    pub rc: usize,
}

impl PgFrame {
    pub fn new() -> (r: Self)
        ensures
            r.rc == 0,
    {
        PgFrame { rc: 0 }
    }

    pub fn with_rc(n: usize) -> (r: Self)
        ensures
            r.rc == n,
    {
        PgFrame { rc: n }
    }

    /// Adds a reference and returns the count before.
    pub fn up(&mut self) -> (r: usize)
        ensures
            r == old(self).rc,
            final(self).rc == vstd::wrapping::usize_specs::wrapping_add(old(self).rc, 1),
    {
        let prev = self.rc;
        self.rc = self.rc.wrapping_add(1);
        prev
    }

    /// Drops a reference and returns the count before.
    pub fn down(&mut self) -> (r: usize)
        ensures
            r == old(self).rc,
            final(self).rc == vstd::wrapping::usize_specs::wrapping_sub(old(self).rc, 1),
    {
        let prev = self.rc;
        self.rc = self.rc.wrapping_sub(1);
        prev
    }

    pub fn count(&self) -> (r: usize)
        ensures
            r == self.rc,
    {
        self.rc
    }

    pub fn set(&mut self, n: usize)
        ensures
            final(self).rc == n,
    {
        self.rc = n;
    }

    /// Replaces the count by `desired` when it is `expected`.
    pub fn cas(&mut self, expected: usize, desired: usize) -> (r: bool)
        ensures
            r == (old(self).rc == expected),
            final(self).rc == if r { desired } else { old(self).rc },
    {
        if self.rc == expected {
            self.rc = desired;
            true
        } else {
            false
        }
    }

    /// Adds a reference unless there is none left.
    pub fn inc_if_nonzero(&mut self) -> (r: bool)
        requires
            old(self).rc != usize::MAX,
        ensures
            r == (old(self).rc != 0),
            final(self).rc == if r { (old(self).rc + 1) as usize } else { old(self).rc },
    {
        let cur = self.rc;
        if cur == 0 {
            return false;
        }
        self.rc = cur + 1;
        true
    }
}

pub struct SharedPage {
    pub frame: usize,
    pub w: bool,
    pub pending: bool,
}

impl SharedPage {
    pub fn new(f: usize) -> (r: Self)
        ensures
            r == (SharedPage { frame: f, w: false, pending: true }),
    {
        SharedPage { frame: f, w: false, pending: true }
    }

    /// Resolves a copy-on-write fault: a page that is still shared gets the
    /// first free frame met from its old frame on (wrapping around), drops
    /// one reference to the source frame and becomes writable. A resolved
    /// page keeps its frame. Without a free frame nothing changes.
    pub fn fault(&mut self, pool: &mut FramePool, src: &mut PgFrame) -> (r: Result<usize, &'static str>)
        ensures
            final(pool).cap == old(pool).cap,
            !old(self).pending ==> r == Ok::<usize, &'static str>(old(self).frame) && *final(self) == *old(self)
                && final(pool).slots@ == old(pool).slots@ && *final(src) == *old(src),
            old(self).pending ==> ({
                let s = old(pool).slots@;
                let start = scan_start(old(self).frame, s.len());
                match r {
                    Err(e) => e == "oom" && none_free_in(s, 0, s.len() as int) && final(pool).slots@ == s
                        && *final(self) == *old(self) && *final(src) == *old(src),
                    Ok(nf) => cyclic_first_free(s, start, nf as int)
                        && final(pool).slots@ == s.update(nf as int, false)
                        && *final(self) == (SharedPage { frame: nf, w: true, pending: false })
                        && final(src).rc == vstd::wrapping::usize_specs::wrapping_sub(old(src).rc, 1),
                }
            }),
    {
        let pend = self.pending;
        let cur = self.frame;
        if !pend {
            return Ok(cur);
        }
        let len = pool.slots.len();
        let m = if len > 0 { len } else { 1 };
        let start = cur % m;
        let nf = match scan_take_from(&mut pool.slots, start) {
            Some(i) => i,
            None => return Err("oom"),
        };
        self.frame = nf;
        src.rc = src.rc.wrapping_sub(1);
        self.w = true;
        self.pending = false;
        Ok(nf)
    }

    pub fn is_cow_resolved(&self) -> (r: bool)
        ensures
            r == (!self.pending && self.w),
    {
        !self.pending && self.w
    }

    pub fn frame_id(&self) -> (r: usize)
        ensures
            r == self.frame,
    {
        self.frame
    }
}

} // verus!
