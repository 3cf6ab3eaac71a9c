//! Virtual memory: regions, the per-process region map and address spaces
//! with copy-on-write frames.
use vstd::prelude::*;
use std::collections::BTreeMap;
use crate::consts::{KERN_BASE, MEM_OFF, PAGE_SIZE, VM_GROWSDOWN, VM_WRITE};
use crate::frame::{cyclic_take, FramePool, PgFrame};
use crate::bits::{lemma_align_up_bits, lemma_word_pow2, word_pow2};

verus! {

pub struct VmRegion {
    pub base: usize,
    pub len: usize,
    pub flags: u32,
    pub offset: usize,
    pub tag: u16,
    pub ref_count: usize,
}

/// The region's range ends inside the word.
pub open spec fn end_fits(r: VmRegion) -> bool {
    r.base + r.len <= usize::MAX
}

/// The half-open ranges `[r.base, r.base + r.len)` and `[lo, hi)` meet.
pub open spec fn meets(r: VmRegion, lo: int, hi: int) -> bool {
    lo < r.base + r.len && r.base < hi
}

impl VmRegion {
    pub fn new(base: usize, len: usize, flags: u32) -> (r: Self)
        ensures
            r == (VmRegion { base, len, flags, offset: 0, tag: 0, ref_count: 1 }),
    {
        VmRegion { base, len, flags, offset: 0, tag: 0, ref_count: 1 }
    }

    pub fn with_offset(base: usize, len: usize, flags: u32, offset: usize) -> (r: Self)
        ensures
            r == (VmRegion { base, len, flags, offset, tag: 0, ref_count: 1 }),
    {
        VmRegion { base, len, flags, offset, tag: 0, ref_count: 1 }
    }

    pub fn end(&self) -> (r: usize)
        requires
            end_fits(*self),
        ensures
            r == self.base + self.len,
    {
        self.base + self.len
    }

    pub fn contains(&self, addr: usize) -> (r: bool)
        requires
            addr >= self.base ==> end_fits(*self),
        ensures
            r == (self.base <= addr < self.base + self.len),
    {
        addr >= self.base && addr < self.base + self.len
    }

    /// The two regions overlap, with both ends taken modulo the word:
    /// they are apart when this one ends at or before the other begins, or
    /// the other ends strictly before this one begins.
    pub fn overlaps(&self, other: &VmRegion) -> (r: bool)
        ensures
            r == !(vstd::wrapping::usize_specs::wrapping_add(self.base, self.len) <= other.base
                || vstd::wrapping::usize_specs::wrapping_add(other.base, other.len) < self.base),
    {
        let a_end = self.base.wrapping_add(self.len);
        let b_end = other.base.wrapping_add(other.len);
        let no_overlap = a_end <= other.base || b_end < self.base;
        !no_overlap
    }

    /// Cuts the region at `addr`, strictly inside it. The lower part loses
    /// the grows-down flag; the upper part's file offset moves by the size
    /// of the lower part (wrapping).
    pub fn split_at(&self, addr: usize) -> (r: Option<(VmRegion, VmRegion)>)
        requires
            end_fits(*self),
        ensures
            !(self.base < addr < self.base + self.len) ==> r is None,
            self.base < addr < self.base + self.len ==> r == Some((
                VmRegion {
                    base: self.base,
                    len: (addr - self.base) as usize,
                    flags: if self.flags & VM_GROWSDOWN != 0 { self.flags & !VM_GROWSDOWN } else { self.flags },
                    offset: self.offset,
                    tag: self.tag,
                    ref_count: self.ref_count,
                },
                VmRegion {
                    base: addr,
                    len: (self.len - (addr - self.base)) as usize,
                    flags: self.flags,
                    offset: vstd::wrapping::usize_specs::wrapping_add(self.offset, (addr - self.base) as usize),
                    tag: self.tag,
                    ref_count: self.ref_count,
                },
            )),
    {
        let e = self.base + self.len;
        if addr <= self.base || addr >= e {
            return None;
        }
        let ll = addr - self.base;
        let rl = self.len - ll;
        let lo = self.offset;
        let ro = self.offset.wrapping_add(ll);
        let mut lf = self.flags;
        let rf = self.flags;
        if self.flags & VM_GROWSDOWN != 0 {
            lf &= !VM_GROWSDOWN;
        }
        let l = VmRegion { base: self.base, len: ll, flags: lf, offset: lo, tag: self.tag, ref_count: self.ref_count };
        let r = VmRegion { base: addr, len: rl, flags: rf, offset: ro, tag: self.tag, ref_count: self.ref_count };
        Some((l, r))
    }

    /// Joins `other` onto the end of this region when it starts where this
    /// one ends and has the same flags and tag; the joined region keeps the
    /// larger reference count.
    pub fn merge_with(&self, other: &VmRegion) -> (r: Option<VmRegion>)
        requires
            end_fits(*self),
            self.base + self.len == other.base && self.flags == other.flags && self.tag == other.tag
                ==> self.len + other.len <= usize::MAX,
        ensures
            !(self.base + self.len == other.base && self.flags == other.flags && self.tag == other.tag) ==> r is None,
            self.base + self.len == other.base && self.flags == other.flags && self.tag == other.tag ==> r == Some(
                VmRegion {
                    base: self.base,
                    len: (self.len + other.len) as usize,
                    flags: self.flags,
                    offset: self.offset,
                    tag: self.tag,
                    ref_count: if self.ref_count >= other.ref_count { self.ref_count } else { other.ref_count },
                },
            ),
    {
        let se = self.base + self.len;
        if se != other.base {
            return None;
        }
        if self.flags != other.flags {
            return None;
        }
        if self.tag != other.tag {
            return None;
        }
        let rc = if self.ref_count >= other.ref_count { self.ref_count } else { other.ref_count };
        Some(VmRegion {
            base: self.base,
            len: self.len + other.len,
            flags: self.flags,
            offset: self.offset,
            tag: self.tag,
            ref_count: rc,
        })
    }

    /// Adds a reference and returns the count before.
    pub fn ref_up(&mut self) -> (r: usize)
        ensures
            r == old(self).ref_count,
            *final(self) == (VmRegion {
                ref_count: vstd::wrapping::usize_specs::wrapping_add(old(self).ref_count, 1),
                ..*old(self)
            }),
    {
        let prev = self.ref_count;
        self.ref_count = self.ref_count.wrapping_add(1);
        prev
    }

    /// Drops a reference and returns the count before.
    pub fn ref_down(&mut self) -> (r: usize)
        ensures
            r == old(self).ref_count,
            *final(self) == (VmRegion {
                ref_count: vstd::wrapping::usize_specs::wrapping_sub(old(self).ref_count, 1),
                ..*old(self)
            }),
    {
        let prev = self.ref_count;
        self.ref_count = self.ref_count.wrapping_sub(1);
        prev
    }

    pub fn ref_get(&self) -> (r: usize)
        ensures
            r == self.ref_count,
    {
        self.ref_count
    }
}

// ---------------------------------------------------------------- map

pub struct VmMap {
    pub regions: Vec<VmRegion>,
    pub brk: usize,
    pub mmap_base: usize,
}

/// Every region's range ends inside the word.
pub open spec fn ends_fit(s: Seq<VmRegion>) -> bool {
    forall|i: int| 0 <= i < s.len() ==> end_fits(#[trigger] s[i])
}

/// Regions are in increasing order of address and do not overlap.
pub open spec fn sorted_disjoint(s: Seq<VmRegion>) -> bool {
    forall|i: int, j: int| 0 <= i < j < s.len() ==> (#[trigger] s[i]).base + s[i].len <= (#[trigger] s[j]).base
}

/// Every region that a scan for a region `[rb, re)` reads ends inside the
/// word: the scan reads each region in turn while those before it start
/// at or below `rb` and do not meet the new region.
pub open spec fn scan_fits(s: Seq<VmRegion>, rb: usize, re: usize) -> bool {
    forall|j: int|
        0 <= j < s.len() && (forall|k: int| 0 <= k < j ==> (#[trigger] s[k]).base <= rb && !meets(s[k], rb as int, re as int))
            ==> end_fits(#[trigger] s[j])
}

/// `i` is where a region starting at `rb` goes: after every region that
/// starts at or below `rb`, before the first that starts above it.
pub open spec fn insert_pos(s: Seq<VmRegion>, rb: usize, i: int) -> bool {
    &&& 0 <= i <= s.len()
    &&& forall|j: int| 0 <= j < i ==> (#[trigger] s[j]).base <= rb
    &&& i < s.len() ==> s[i].base > rb
}

/// The regions that `remove_range(base, len)` keeps: those that neither lie
/// inside `[base, end)` nor meet it.
pub open spec fn is_hit(r: VmRegion, base: usize, end: usize) -> bool {
    (r.base >= base && r.base + r.len <= end) || (r.base < end && r.base + r.len > base)
}

pub open spec fn kept(s: Seq<VmRegion>, base: usize, end: usize) -> Seq<VmRegion>
    decreases s.len(),
{
    if s.len() == 0 {
        s
    } else {
        let k = kept(s.drop_last(), base, end);
        if is_hit(s.last(), base, end) {
            k
        } else {
            k.push(s.last())
        }
    }
}

/// `len` bytes at `c` lie below the kernel and meet no region of `s`.
pub open spec fn fits_at(s: Seq<VmRegion>, c: int, len: int) -> bool {
    &&& c + len <= KERN_BASE
    &&& forall|i: int| 0 <= i < s.len() ==> !meets(#[trigger] s[i], c, c + len)
}

/// No multiple of `al` in `[lo, hi)` is a place where `len` bytes fit.
pub open spec fn no_fit_between(s: Seq<VmRegion>, len: int, al: int, lo: int, hi: int) -> bool {
    forall|c: int| lo <= c < hi && #[trigger] (c % al) == 0 ==> !fits_at(s, c, len)
}

/// No multiple of `al` from `lo` on is a place where `len` bytes fit.
pub open spec fn no_fit_from(s: Seq<VmRegion>, len: int, al: int, lo: int) -> bool {
    forall|c: int| lo <= c && #[trigger] (c % al) == 0 ==> !fits_at(s, c, len)
}

/// Two different multiples of `al` are at least `al` apart.
proof fn lemma_multiples_apart(a: int, b: int, al: int)
    requires
        al > 0,
        0 <= a < b,
        a % al == 0,
        b % al == 0,
    ensures
        a + al <= b,
{
    vstd::arithmetic::div_mod::lemma_fundamental_div_mod(a, al);
    vstd::arithmetic::div_mod::lemma_fundamental_div_mod(b, al);
    let qa = a / al;
    let qb = b / al;
    assert(qa < qb) by (nonlinear_arith)
        requires
            a == al * qa,
            b == al * qb,
            a < b,
            al > 0;
    assert(al * qa + al <= al * qb) by (nonlinear_arith)
        requires
            qa < qb,
            al > 0;
}

/// Rounding `lo` up to `up` skips no aligned place.
proof fn lemma_none_below_align(s: Seq<VmRegion>, len: int, al: int, lo: int, up: int)
    requires
        al > 0,
        lo >= 0,
        up % al == 0,
        lo <= up < lo + al,
    ensures
        no_fit_between(s, len, al, lo, up),
{
    assert forall|c: int| lo <= c < up && #[trigger] (c % al) == 0 implies !fits_at(s, c, len) by {
        lemma_multiples_apart(c, up, al);
    }
}

/// Once `len` bytes at an aligned `cand` pass the kernel base, so do they
/// at every later aligned place.
proof fn lemma_none_above(s: Seq<VmRegion>, len: int, al: int, lo: int, cand: int)
    requires
        al > 0,
        cand + len > KERN_BASE,
        no_fit_between(s, len, al, lo, cand),
    ensures
        no_fit_from(s, len, al, lo),
{
    assert forall|c: int| lo <= c && #[trigger] (c % al) == 0 implies !fits_at(s, c, len) by {
        if c < cand {
            assert(lo <= c < cand && c % al == 0);
        }
    }
}

/// Moving the candidate past region `k`, which it meets, to `next` (the
/// region's end rounded up) skips no aligned place.
proof fn lemma_skip_region(s: Seq<VmRegion>, len: int, al: int, lo: int, cand: int, next: int, k: int)
    requires
        al > 0,
        len > 0,
        0 <= k < s.len(),
        lo <= cand,
        meets(s[k], cand, cand + len),
        s[k].base + s[k].len <= next < s[k].base + s[k].len + al,
        next % al == 0,
        no_fit_between(s, len, al, lo, cand),
    ensures
        no_fit_between(s, len, al, lo, next),
{
    assert forall|c: int| lo <= c < next && #[trigger] (c % al) == 0 implies !fits_at(s, c, len) by {
        if c >= cand {
            if c >= s[k].base + s[k].len {
                lemma_multiples_apart(c, next, al);
            }
            assert(meets(s[k], c, c + len));
        } else {
            assert(lo <= c < cand && c % al == 0);
        }
    }
}

/// The sum of the region lengths, wrapping.
pub open spec fn total_len(s: Seq<VmRegion>) -> usize
    decreases s.len(),
{
    if s.len() == 0 {
        0
    } else {
        vstd::wrapping::usize_specs::wrapping_add(total_len(s.drop_last()), s.last().len)
    }
}

impl VmMap {
    pub fn new() -> (r: Self)
        ensures
            r.regions@ == Seq::<VmRegion>::empty(),
            r.brk == 0x0040_0000,
            r.mmap_base == 0x7000_0000,
    {
        VmMap { regions: Vec::new(), brk: 0x0040_0000, mmap_base: 0x7000_0000 }
    }

    /// Adds `region` at its place in address order. Scanning from the
    /// start, it is refused with "overlap" when it meets one of the regions
    /// up to and including the first that starts above it.
    pub fn insert(&mut self, region: VmRegion) -> (r: Result<(), &'static str>)
        requires
            scan_fits(old(self).regions@, region.base, vstd::wrapping::usize_specs::wrapping_add(region.base, region.len)),
        ensures
            final(self).brk == old(self).brk,
            final(self).mmap_base == old(self).mmap_base,
            ({
                let s = old(self).regions@;
                let re = vstd::wrapping::usize_specs::wrapping_add(region.base, region.len);
                exists|i: int|
                    #[trigger] insert_pos(s, region.base, i) && match r {
                        Ok(()) => (forall|j: int| 0 <= j < s.len() && j <= i ==> !meets(#[trigger] s[j], region.base as int, re as int))
                            && final(self).regions@ == s.insert(i, region),
                        Err(e) => e == "overlap" && final(self).regions@ == s && exists|j: int|
                            0 <= j < s.len() && j <= i && meets(#[trigger] s[j], region.base as int, re as int),
                    }
            }),
            ends_fit(old(self).regions@) && end_fits(region) && r is Ok ==> ends_fit(final(self).regions@),
    {
        let rb = region.base;
        let re = rb.wrapping_add(region.len);
        let ghost s = self.regions@;
        let mut idx: usize = 0;
        while idx < self.regions.len()
            invariant
                s == old(self).regions@,
                self.regions@ == s,
                rb == region.base,
                re == vstd::wrapping::usize_specs::wrapping_add(region.base, region.len),
                self.brk == old(self).brk,
                self.mmap_base == old(self).mmap_base,
                scan_fits(s, rb, re),
                idx <= s.len(),
                forall|j: int| 0 <= j < idx ==> (#[trigger] s[j]).base <= rb && !meets(s[j], rb as int, re as int),
            ensures
                self.regions@ == s,
                self.brk == old(self).brk,
                self.mmap_base == old(self).mmap_base,
                insert_pos(s, rb, idx as int),
                forall|j: int| 0 <= j < s.len() && j <= idx ==> !meets(#[trigger] s[j], rb as int, re as int),
            decreases self.regions.len() - idx,
        {
            proof {
                assert(end_fits(s[idx as int]));
            }
            let eb = self.regions[idx].base;
            let ee = eb + self.regions[idx].len;
            if rb < ee && eb < re {
                let r: Result<(), &'static str> = Err("overlap");
                proof {
                    let pos = first_above(s, rb, idx as int);
                    assert(insert_pos(s, rb, pos));
                    assert(meets(s[idx as int], rb as int, re as int));
                    assert(r matches Err(e) && e == "overlap");
                }
                return r;
            }
            if eb > rb {
                proof {
                    assert(insert_pos(s, rb, idx as int));
                }
                break;
            }
            idx += 1;
        }
        self.regions.insert(idx, region);
        proof {
            if end_fits(region) && ends_fit(s) {
                assert forall|i: int| 0 <= i < self.regions@.len() implies end_fits(#[trigger] self.regions@[i]) by {
                    if i < idx {
                        assert(self.regions@[i] == s[i]);
                    } else if i > idx {
                        assert(self.regions@[i] == s[i - 1]);
                    }
                }
            }
        }
        Ok(())
    }
}

impl VmMap {
    /// Binary search for a region that holds `addr`. On a map whose regions
    /// are in address order and disjoint, `None` means no region holds it.
    pub fn find(&self, addr: usize) -> (r: Option<&VmRegion>)
        requires
            ends_fit(self.regions@),
        ensures
            r matches Some(x) ==> exists|i: int|
                0 <= i < self.regions@.len() && #[trigger] self.regions@[i] == *x && x.base <= addr < x.base + x.len,
            r is None && sorted_disjoint(self.regions@) ==> forall|i: int|
                0 <= i < self.regions@.len() ==> !((#[trigger] self.regions@[i]).base <= addr < self.regions@[i].base
                    + self.regions@[i].len),
    {
        let n = self.regions.len();
        if n == 0 {
            return None;
        }
        let ghost s = self.regions@;
        let mut lo: usize = 0;
        let mut hi: usize = n;
        while lo < hi
            invariant
                s == self.regions@,
                n == s.len(),
                ends_fit(s),
                lo <= hi <= n,
                sorted_disjoint(s) ==> forall|i: int| 0 <= i < lo ==> (#[trigger] s[i]).base + s[i].len <= addr,
                sorted_disjoint(s) ==> forall|i: int| hi <= i < n ==> (#[trigger] s[i]).base > addr,
            decreases hi - lo,
        {
            let mid = lo + (hi - lo) / 2;
            let r = &self.regions[mid];
            if addr < r.base {
                proof {
                    assert forall|i: int| mid <= i < n && sorted_disjoint(s) implies (#[trigger] s[i]).base > addr by {
                        if i > mid {
                            assert(s[mid as int].base + s[mid as int].len <= s[i].base);
                        }
                    }
                }
                hi = mid;
            } else if addr >= r.base + r.len {
                proof {
                    assert forall|i: int| 0 <= i < mid + 1 && sorted_disjoint(s) implies (#[trigger] s[i]).base + s[i].len <= addr by {
                        if i < mid {
                            assert(s[i].base + s[i].len <= s[mid as int].base);
                        }
                    }
                }
                lo = mid + 1;
            } else {
                return Some(r);
            }
        }
        None
    }

    /// Drops every region that lies inside `[base, base + len)` or meets it
    /// (the end taken modulo the word) and returns how many were dropped.
    pub fn remove_range(&mut self, base: usize, len: usize) -> (r: usize)
        requires
            ends_fit(old(self).regions@),
        ensures
            ({
                let end = vstd::wrapping::usize_specs::wrapping_add(base, len);
                &&& final(self).regions@ == kept(old(self).regions@, base, end)
                &&& r == old(self).regions@.len() - final(self).regions@.len()
            }),
            final(self).brk == old(self).brk,
            final(self).mmap_base == old(self).mmap_base,
    {
        let end = base.wrapping_add(len);
        let before = self.regions.len();
        let ghost s = self.regions@;
        let ghost mut p: int = 0;
        let mut i: usize = 0;
        while i < self.regions.len()
            invariant
                s == old(self).regions@,
                before == s.len(),
                ends_fit(s),
                0 <= p <= s.len(),
                self.regions@ == kept(s.take(p), base, end) + s.skip(p),
                i == kept(s.take(p), base, end).len(),
                self.brk == old(self).brk,
                self.mmap_base == old(self).mmap_base,
            decreases self.regions.len() - i,
        {
            proof {
                assert(s.take(p + 1).drop_last() =~= s.take(p));
                assert(s.take(p + 1).last() == s[p]);
                assert(self.regions@[i as int] == s[p]);
                assert(s.skip(p) =~= seq![s[p]] + s.skip(p + 1));
            }
            let rb = self.regions[i].base;
            let re = rb + self.regions[i].len;
            if rb >= base && re <= end {
                self.regions.remove(i);
                proof {
                    assert(self.regions@ =~= kept(s.take(p + 1), base, end) + s.skip(p + 1));
                    p = p + 1;
                }
            } else if rb < end && re > base {
                self.regions.remove(i);
                proof {
                    assert(self.regions@ =~= kept(s.take(p + 1), base, end) + s.skip(p + 1));
                    p = p + 1;
                }
            } else {
                proof {
                    assert(self.regions@ =~= kept(s.take(p + 1), base, end) + s.skip(p + 1));
                    p = p + 1;
                }
                i += 1;
            }
        }
        proof {
            lemma_kept_len(s.take(p), base, end);
            if p < s.len() {
                assert(self.regions@.len() > i);
            }
            assert(s.take(p) =~= s);
            assert(self.regions@ =~= kept(s, base, end));
            lemma_kept_len(s, base, end);
        }
        before - self.regions.len()
    }

    /// A place for `len` bytes, aligned to `align` (a page when `align` is
    /// at most 1), at or above `mmap_base`: from the rounded-up `mmap_base`,
    /// each candidate that meets a region moves to that region's end,
    /// rounded up; at most `regions + 2` candidates are tried. An empty
    /// request gets `mmap_base`. With a power-of-two alignment the place
    /// found is the lowest aligned one at or above `mmap_base`, and on a map
    /// in order there is none only when no aligned place fits at all.
    pub fn find_free(&self, len: usize, align: usize) -> (r: Option<usize>)
        requires
            ends_fit(self.regions@),
            self.regions@.len() + 2 <= usize::MAX,
            ({
                let mask = (if align > 1 { align } else { PAGE_SIZE }) - 1;
                &&& self.mmap_base + mask <= usize::MAX
                &&& forall|i: int| 0 <= i < self.regions@.len() ==> (#[trigger] self.regions@[i]).base
                    + self.regions@[i].len + mask <= usize::MAX
            }),
        ensures
            len == 0 ==> r == Some(self.mmap_base),
            len > 0 ==> (r matches Some(c) ==> fits_at(self.regions@, c as int, len as int)),
            ({
                let al = if align > 1 { align } else { PAGE_SIZE };
                len > 0 && word_pow2(al) ==> {
                    &&& r matches Some(c) ==> c % al == 0 && c >= self.mmap_base
                        && no_fit_between(self.regions@, len as int, al as int, self.mmap_base as int, c as int)
                    &&& r is None && sorted_disjoint(self.regions@) ==> no_fit_from(
                        self.regions@,
                        len as int,
                        al as int,
                        self.mmap_base as int,
                    )
                }
            }),
    {
        if len == 0 {
            return Some(self.mmap_base);
        }
        let ghost s = self.regions@;
        let ghost n = s.len();
        let al = if align > 1 { align } else { PAGE_SIZE };
        let al_mask = al - 1;
        let ghost pow2 = word_pow2(al);
        proof {
            lemma_word_pow2(al);
        }
        let mut cand = (self.mmap_base + al_mask) & !al_mask;
        proof {
            if pow2 {
                lemma_align_up_bits(self.mmap_base, al, cand);
                lemma_none_below_align(s, len as int, al as int, self.mmap_base as int, cand as int);
            }
        }
        let ghost mut nxt: int = 0;
        let mut iters: usize = 0;
        let max_iters = self.regions.len() + 2;
        while iters < max_iters
            invariant
                s == self.regions@,
                n == s.len(),
                ends_fit(s),
                al == (if align > 1 { align } else { PAGE_SIZE }),
                al_mask == al - 1,
                pow2 == word_pow2(al),
                pow2 ==> al != 0 && al & ((al - 1) as usize) == 0,
                forall|i: int| 0 <= i < s.len() ==> (#[trigger] s[i]).base + s[i].len + al_mask <= usize::MAX,
                max_iters == n + 2,
                len > 0,
                pow2 ==> cand % al == 0 && cand >= self.mmap_base,
                pow2 ==> no_fit_between(s, len as int, al as int, self.mmap_base as int, cand as int),
                pow2 && sorted_disjoint(s) ==> iters <= nxt <= n && forall|j: int| 0 <= j < nxt ==> (#[trigger] s[j]).base + s[j].len <= cand,
            decreases max_iters - iters,
        {
            if cand.wrapping_add(len) > KERN_BASE || cand.wrapping_add(len) < cand {
                proof {
                    if pow2 {
                        lemma_none_above(s, len as int, al as int, self.mmap_base as int, cand as int);
                    }
                }
                return None;
            }
            let ce = cand + len;
            let mut conflict_end: usize = 0;
            let mut hit = false;
            let mut k: usize = 0;
            while k < self.regions.len()
                invariant_except_break
                    !hit,
                invariant
                    s == self.regions@,
                    ends_fit(s),
                    k <= s.len(),
                    ce == cand + len,
                    forall|i: int| 0 <= i < k ==> !meets(#[trigger] s[i], cand as int, ce as int),
                ensures
                    !hit ==> forall|i: int| 0 <= i < s.len() ==> !meets(#[trigger] s[i], cand as int, ce as int),
                    hit ==> k < s.len() && meets(s[k as int], cand as int, ce as int) && conflict_end == s[k as int].base
                        + s[k as int].len,
                    forall|i: int| 0 <= i < k ==> !meets(#[trigger] s[i], cand as int, ce as int),
                decreases self.regions.len() - k,
            {
                let rb = self.regions[k].base;
                let re = rb + self.regions[k].len;
                if rb < ce && cand < re {
                    conflict_end = re;
                    hit = true;
                    break;
                }
                k += 1;
            }
            if !hit {
                return Some(cand);
            }
            let next = (conflict_end + al_mask) & !al_mask;
            proof {
                if pow2 {
                    lemma_align_up_bits(conflict_end, al, next);
                    lemma_skip_region(s, len as int, al as int, self.mmap_base as int, cand as int, next as int, k as int);
                }
                if pow2 && sorted_disjoint(s) {
                    if (k as int) < nxt {
                        assert(s[k as int].base + s[k as int].len <= cand);
                    }
                    assert forall|j: int| 0 <= j < k + 1 implies (#[trigger] s[j]).base + s[j].len <= next by {
                        if j < k {
                            assert(s[j].base + s[j].len <= s[k as int].base);
                        }
                    }
                    nxt = k + 1;
                }
            }
            cand = next;
            iters += 1;
        }
        proof {
            if pow2 && sorted_disjoint(s) {
                assert(false);
            }
        }
        None
    }

    /// The sum of the region lengths, wrapping.
    pub fn total_mapped(&self) -> (r: usize)
        ensures
            r == total_len(self.regions@),
    {
        let mut s: usize = 0;
        let mut i: usize = 0;
        while i < self.regions.len()
            invariant
                i <= self.regions@.len(),
                s == total_len(self.regions@.take(i as int)),
            decreases self.regions.len() - i,
        {
            proof {
                assert(self.regions@.take(i as int + 1).drop_last() =~= self.regions@.take(i as int));
            }
            s = s.wrapping_add(self.regions[i].len);
            i += 1;
        }
        assert(self.regions@.take(i as int) =~= self.regions@);
        s
    }

    /// A copy of every region, with its reference count.
    pub fn clone_regions(&self) -> (r: Vec<VmRegion>)
        ensures
            r@ == self.regions@,
    {
        let mut out: Vec<VmRegion> = Vec::new();
        let mut i: usize = 0;
        while i < self.regions.len()
            invariant
                i <= self.regions@.len(),
                out@ == self.regions@.take(i as int),
            decreases self.regions.len() - i,
        {
            let r = &self.regions[i];
            out.push(VmRegion {
                base: r.base,
                len: r.len,
                flags: r.flags,
                offset: r.offset,
                tag: r.tag,
                ref_count: r.ref_count,
            });
            i += 1;
            assert(out@ =~= self.regions@.take(i as int));
        }
        assert(self.regions@.take(i as int) =~= self.regions@);
        out
    }

    /// The room between region `idx` and the next one (or the kernel base
    /// for the last), 0 when it is negative or `idx` is past the end.
    pub fn gap_after(&self, idx: usize) -> (r: usize)
        requires
            ends_fit(self.regions@),
        ensures
            ({
                let s = self.regions@;
                if idx >= s.len() {
                    r == 0
                } else {
                    let re = s[idx as int].base + s[idx as int].len;
                    let next = if idx + 1 < s.len() { s[idx + 1].base as int } else { KERN_BASE as int };
                    r == if next >= re { next - re } else { 0 }
                }
            }),
    {
        if idx >= self.regions.len() {
            return 0;
        }
        let re = self.regions[idx].base + self.regions[idx].len;
        if idx + 1 < self.regions.len() {
            self.regions[idx + 1].base.saturating_sub(re)
        } else {
            KERN_BASE.saturating_sub(re)
        }
    }
}

proof fn lemma_kept_len(s: Seq<VmRegion>, base: usize, end: usize)
    ensures
        kept(s, base, end).len() <= s.len(),
    decreases s.len(),
{
    if s.len() > 0 {
        lemma_kept_len(s.drop_last(), base, end);
    }
}

// ------------------------------------------------------ address spaces

/// The copy-on-write frames whose page lies outside `[start, end)`.
pub open spec fn cow_outside(m: Map<usize, PgFrame>, start: usize, end: usize) -> Map<usize, PgFrame> {
    m.restrict(m.dom().filter(|k: usize| !(start <= k < end)))
}

/// The pages of `m` inside `[start, end)`.
pub open spec fn cow_inside(m: Map<usize, PgFrame>, start: usize, end: usize) -> Set<usize> {
    m.dom().filter(|k: usize| start <= k < end)
}

/// The pages whose frame is shared with another address space.
pub open spec fn shared_pages(m: Map<usize, PgFrame>) -> Set<usize> {
    m.dom().filter(|k: usize| m[k].rc > 1)
}

/// Every frame of `m` with one more reference, wrapping.
pub open spec fn cow_bumped(m: Map<usize, PgFrame>) -> Map<usize, PgFrame> {
    Map::new(|k: usize| m.contains_key(k), |k: usize| PgFrame { rc: vstd::wrapping::usize_specs::wrapping_add(m[k].rc, 1) })
}

pub struct AddrSpace {
    pub vm_map: VmMap,
    pub page_table_root: usize,
    pub asid: u16,
    pub ref_count: usize,
    pub cow_pages: BTreeMap<usize, PgFrame>,
}

impl AddrSpace {
    pub fn new(asid: u16) -> (r: Self)
        ensures
            r.vm_map.regions@ == Seq::<VmRegion>::empty(),
            r.vm_map.brk == 0x0040_0000,
            r.vm_map.mmap_base == 0x7000_0000,
            r.page_table_root == 0,
            r.asid == asid,
            r.ref_count == 1,
            r.cow_pages@ == Map::<usize, PgFrame>::empty(),
    {
        AddrSpace {
            vm_map: VmMap::new(),
            page_table_root: 0,
            asid,
            ref_count: 1,
            cow_pages: BTreeMap::new(),
        }
    }

    /// The number of resident copy-on-write pages.
    pub fn rss_pages(&self) -> (r: usize)
        ensures
            r == self.cow_pages@.len(),
    {
        broadcast use vstd::std_specs::btree::group_btree_axioms;
        proof {
            crate::ordkeys::lemma_word_keys_ordered();
        }
        self.cow_pages.len()
    }

    /// The number of frames shared with another address space.
    pub fn cow_sharers(&self) -> (r: usize)
        ensures
            r == shared_pages(self.cow_pages@).len(),
    {
        broadcast use vstd::std_specs::btree::group_btree_axioms;
        proof {
            crate::ordkeys::lemma_word_keys_ordered();
        }
        let total = self.cow_pages.len();
        let ghost m = self.cow_pages@;
        let ghost whole = vstd::std_specs::iter::IteratorSpec::remaining(&vstd::std_specs::btree::spec_btree_map_iter(&self.cow_pages));
        let ghost mut seen: Set<usize> = Set::empty();
        let ghost mut sh: Set<usize> = Set::empty();
        let mut n: usize = 0;
        for kv in it: self.cow_pages.iter()
            invariant
                m == self.cow_pages@,
                whole == vstd::std_specs::iter::IteratorSpec::remaining(&vstd::std_specs::btree::spec_btree_map_iter(&self.cow_pages)),
                it.seq() == whole,
                whole.no_duplicates(),
                whole.len() == total,
                forall|j: int| 0 <= j < whole.len() ==> m.contains_key(*(#[trigger] whole[j]).0) && m[*whole[j].0] == *whole[j].1,
                forall|j: int| 0 <= j < it.index() ==> seen.contains(*(#[trigger] whole[j]).0),
                forall|k: usize| #[trigger] seen.contains(k) ==> exists|j: int| 0 <= j < it.index() && *whole[j].0 == k,
                seen.finite(),
                sh.finite(),
                sh == seen.filter(|k: usize| m[k].rc > 1),
                n == sh.len(),
                n <= it.index(),
        {
            proof {
                let i = it.index();
                assert(kv == whole[i]);
                let k = *kv.0;
                if seen.contains(k) {
                    let j = choose|j: int| 0 <= j < i && *whole[j].0 == k;
                    assert(whole[j] == whole[i]);
                }
                assert(seen.insert(k).filter(|q: usize| m[q].rc > 1) =~= if m[k].rc > 1 { sh.insert(k) } else { sh });
                seen = seen.insert(k);
                if m[k].rc > 1 {
                    sh = sh.insert(k);
                }
            }
            if kv.1.count() > 1 {
                n += 1;
            }
        }
        proof {
            assert(seen =~= m.dom()) by {
                assert forall|k: usize| m.contains_key(k) implies seen.contains(k) by {
                    assert(whole.contains((&k, &m[k])));
                    let j = choose|j: int| 0 <= j < whole.len() && whole[j] == (&k, &m[k]);
                    assert(*whole[j].0 == k);
                }
            }
        }
        n
    }

    /// Gives every region that meets `[start, start + len)` the flags
    /// `new_flags`.
    pub fn protect(&mut self, start: usize, len: usize, new_flags: u32) -> (r: Result<(), &'static str>)
        requires
            start + len <= usize::MAX,
            forall|i: int| 0 <= i < old(self).vm_map.regions@.len() && (#[trigger] old(self).vm_map.regions@[i]).base
                < start + len ==> end_fits(old(self).vm_map.regions@[i]),
        ensures
            r is Ok,
            final(self).vm_map.regions@.len() == old(self).vm_map.regions@.len(),
            forall|i: int| 0 <= i < old(self).vm_map.regions@.len() ==> #[trigger] final(self).vm_map.regions@[i]
                == if meets(old(self).vm_map.regions@[i], start as int, start + len) {
                    VmRegion { flags: new_flags, ..old(self).vm_map.regions@[i] }
                } else {
                    old(self).vm_map.regions@[i]
                },
            final(self).cow_pages@ == old(self).cow_pages@,
            final(self).vm_map.brk == old(self).vm_map.brk,
            final(self).vm_map.mmap_base == old(self).vm_map.mmap_base,
    {
        let end = start + len;
        let ghost s = self.vm_map.regions@;
        let mut i: usize = 0;
        while i < self.vm_map.regions.len()
            invariant
                s == old(self).vm_map.regions@,
                forall|k: int| 0 <= k < s.len() && (#[trigger] s[k]).base < end ==> end_fits(s[k]),
                end == start + len,
                i <= s.len(),
                self.vm_map.regions@.len() == s.len(),
                forall|j: int| 0 <= j < s.len() ==> #[trigger] self.vm_map.regions@[j] == if j < i && meets(
                    s[j],
                    start as int,
                    end as int,
                ) {
                    VmRegion { flags: new_flags, ..s[j] }
                } else {
                    s[j]
                },
                self.cow_pages@ == old(self).cow_pages@,
                self.vm_map.brk == old(self).vm_map.brk,
                self.vm_map.mmap_base == old(self).vm_map.mmap_base,
            decreases self.vm_map.regions.len() - i,
        {
            let rb = self.vm_map.regions[i].base;
            if rb < end && self.vm_map.regions[i].end() > start {
                let mut reg = self.vm_map.regions[i].clone_region();
                reg.flags = new_flags;
                self.vm_map.regions.set(i, reg);
            }
            i += 1;
        }
        Ok(())
    }

    /// Adds a region for the part of the region holding `addr` from `addr`
    /// on (without shrinking the region that holds it). "enomem" when the
    /// search finds no region; "einval" when `addr` is the region's start.
    pub fn split_region(&mut self, addr: usize) -> (r: Result<(), &'static str>)
        requires
            ends_fit(old(self).vm_map.regions@),
        ensures
            final(self).cow_pages@ == old(self).cow_pages@,
            final(self).vm_map.brk == old(self).vm_map.brk,
            final(self).vm_map.mmap_base == old(self).vm_map.mmap_base,
            r is Err ==> final(self).vm_map.regions@ == old(self).vm_map.regions@,
            r matches Err(e) ==> (e == "enomem" || e == "einval"),
            r matches Err(e) && e == "einval" ==> exists|i: int|
                0 <= i < old(self).vm_map.regions@.len() && (#[trigger] old(self).vm_map.regions@[i]).base == addr,
            sorted_disjoint(old(self).vm_map.regions@) ==> (r matches Err(e) && e == "enomem" <==> forall|i: int|
                0 <= i < old(self).vm_map.regions@.len() ==> !((#[trigger] old(self).vm_map.regions@[i]).base <= addr
                    < old(self).vm_map.regions@[i].base + old(self).vm_map.regions@[i].len)),
            r is Ok ==> exists|i: int|
                0 <= i < old(self).vm_map.regions@.len() && (#[trigger] old(self).vm_map.regions@[i]).base < addr
                    < old(self).vm_map.regions@[i].base + old(self).vm_map.regions@[i].len
                    && final(self).vm_map.regions@ == old(self).vm_map.regions@.push(
                    VmRegion {
                        base: addr,
                        len: (old(self).vm_map.regions@[i].len - (addr - old(self).vm_map.regions@[i].base)) as usize,
                        flags: old(self).vm_map.regions@[i].flags,
                        offset: 0,
                        tag: 0,
                        ref_count: 1,
                    },
                ),
    {
        let region = match self.vm_map.find(addr) {
            Some(r) => r,
            None => return Err("enomem"),
        };
        let offset = addr - region.base;
        if offset == 0 || offset >= region.len {
            return Err("einval");
        }
        let second = VmRegion::new(addr, region.len - offset, region.flags);
        self.vm_map.regions.push(second);
        Ok(())
    }
}

impl AddrSpace {
    /// Resolves a write fault at `addr`. The region the search finds for
    /// `addr` must be writable ("segfault" otherwise, or when none is
    /// found). A page that nobody else shares stays where it is and its
    /// page address is returned; otherwise the lowest free frame of the pool
    /// ("oom" when there is none) becomes the page's own, recorded with one
    /// reference, and the frame's physical address is returned.
    pub fn handle_cow_fault(&mut self, addr: usize, pool: &mut FramePool) -> (r: Result<usize, &'static str>)
        requires
            ends_fit(old(self).vm_map.regions@),
            crate::frame::addressable(old(pool)),
        ensures
            final(self).vm_map == old(self).vm_map,
            final(pool).cap == old(pool).cap,
            ({
                let page = addr & !((PAGE_SIZE - 1) as usize);
                let m = old(self).cow_pages@;
                let sole = m.contains_key(page) && m[page].rc <= 1;
                let regs = old(self).vm_map.regions@;
                match r {
                    Err(e) => (e == "segfault" || e == "oom") && final(self).cow_pages@ == m
                        && final(pool).slots@ == old(pool).slots@
                        && (e == "oom" ==> crate::frame::none_free_in(old(pool).slots@, 0, old(pool).slots@.len() as int))
                        && (e == "oom" ==> !sole)
                        && (e == "oom" ==> exists|i: int|
                            0 <= i < regs.len() && (#[trigger] regs[i]).base <= addr < regs[i].base + regs[i].len
                                && regs[i].flags & VM_WRITE != 0)
                        && (e == "segfault" && sorted_disjoint(regs) ==> forall|i: int|
                            0 <= i < regs.len() && (#[trigger] regs[i]).base <= addr < regs[i].base + regs[i].len
                                ==> regs[i].flags & VM_WRITE == 0),
                    Ok(v) => (exists|i: int|
                        0 <= i < regs.len() && (#[trigger] regs[i]).base <= addr < regs[i].base + regs[i].len
                            && regs[i].flags & VM_WRITE != 0) && (
                        (sole && v == page && final(self).cow_pages@ == m && final(pool).slots@ == old(pool).slots@)
                        || (!sole && exists|f: int| #[trigger] crate::frame::cyclic_first_free(old(pool).slots@, 0, f)
                            && final(pool).slots@ == old(pool).slots@.update(f, false)
                            && v == f * PAGE_SIZE + MEM_OFF
                            && final(self).cow_pages@ == m.insert(page, PgFrame { rc: 1 }))),
                }
            }),
    {
        broadcast use vstd::std_specs::btree::group_btree_axioms;

        let page_addr = addr & !(PAGE_SIZE - 1);
        let region = match self.vm_map.find(addr) {
            Some(r) => r,
            None => return Err("segfault"),
        };
        if region.flags & VM_WRITE == 0 {
            proof {
                let regs = old(self).vm_map.regions@;
                if sorted_disjoint(regs) {
                    assert forall|i: int|
                        0 <= i < regs.len() && (#[trigger] regs[i]).base <= addr < regs[i].base + regs[i].len
                            implies regs[i].flags & VM_WRITE == 0 by {
                        let k = choose|k: int| 0 <= k < regs.len() && #[trigger] regs[k] == *region && region.base <= addr < region.base + region.len;
                        if k != i {
                            if k < i {
                                assert(regs[k].base + regs[k].len <= regs[i].base);
                            } else {
                                assert(regs[i].base + regs[i].len <= regs[k].base);
                            }
                        }
                    }
                }
            }
            return Err("segfault");
        }
        proof {
            crate::ordkeys::lemma_word_keys_ordered();
        }
        let rc_now: Option<usize> = match self.cow_pages.get(&page_addr) {
            Some(f) => Some(f.count()),
            None => None,
        };
        if let Some(rc) = rc_now {
            if rc <= 1 {
                return Ok(page_addr);
            }
        }
        let frame_id = match pool.get_inner() {
            Some(f) => f,
            None => return Err("oom"),
        };
        proof {
            let n = old(pool).slots@.len();
            assert(frame_id < n);
            assert(frame_id * PAGE_SIZE <= n * PAGE_SIZE) by (nonlinear_arith)
                requires frame_id < n;
        }
        self.cow_pages.insert(page_addr, PgFrame::with_rc(1));
        Ok(frame_id * PAGE_SIZE + MEM_OFF)
    }

    /// Unmaps `[start, start + len)`: drops the regions that lie in or meet
    /// it and the copy-on-write pages inside it, and returns how many of
    /// both went.
    pub fn unmap_range(&mut self, start: usize, len: usize) -> (r: usize)
        requires
            start + len <= usize::MAX,
            ends_fit(old(self).vm_map.regions@),
            old(self).vm_map.regions@.len() + old(self).cow_pages@.len() <= usize::MAX,
        ensures
            final(self).vm_map.regions@ == kept(old(self).vm_map.regions@, start, (start + len) as usize),
            final(self).cow_pages@ == cow_outside(old(self).cow_pages@, start, (start + len) as usize),
            r == (old(self).vm_map.regions@.len() - final(self).vm_map.regions@.len()) + cow_inside(
                old(self).cow_pages@,
                start,
                (start + len) as usize,
            ).len(),
            final(self).vm_map.brk == old(self).vm_map.brk,
            final(self).vm_map.mmap_base == old(self).vm_map.mmap_base,
    {
        broadcast use vstd::std_specs::btree::group_btree_axioms;

        proof {
            crate::ordkeys::lemma_word_keys_ordered();
        }
        let end = start + len;
        let total = self.cow_pages.len();
        let removed = self.vm_map.remove_range(start, len);
        proof {
            lemma_kept_len(old(self).vm_map.regions@, start, end);
        }
        let ghost m = self.cow_pages@;
        let ghost whole = vstd::std_specs::iter::IteratorSpec::remaining(&vstd::std_specs::btree::spec_btree_map_iter(&self.cow_pages));
        let ghost mut gone: Set<usize> = Set::empty();
        let mut doomed: Vec<usize> = Vec::new();
        for kv in it: self.cow_pages.iter()
            invariant
                m == self.cow_pages@,
                whole == vstd::std_specs::iter::IteratorSpec::remaining(&vstd::std_specs::btree::spec_btree_map_iter(&self.cow_pages)),
                it.seq() == whole,
                whole.no_duplicates(),
                whole.len() == total,
                forall|j: int| 0 <= j < whole.len() ==> m.contains_key(*(#[trigger] whole[j]).0) && m[*whole[j].0] == *whole[j].1,
                forall|j: int| 0 <= j < it.index() && start <= *(#[trigger] whole[j]).0 < end ==> gone.contains(*whole[j].0),
                forall|k: usize| #[trigger] gone.contains(k) ==> start <= k < end && exists|j: int| 0 <= j < it.index() && *whole[j].0 == k,
                gone.finite(),
                doomed@.len() == gone.len(),
                doomed@.len() <= it.index(),
                forall|q: int| 0 <= q < doomed@.len() ==> gone.contains(#[trigger] doomed@[q]),
                forall|k: usize| #[trigger] gone.contains(k) ==> doomed@.contains(k),
        {
            let k = *kv.0;
            proof {
                let i = it.index();
                assert(kv == whole[i]);
                if start <= k < end && gone.contains(k) {
                    let j = choose|j: int| 0 <= j < i && *whole[j].0 == k;
                    assert(whole[j] == whole[i]);
                }
            }
            if start <= k && k < end {
                let ghost d0 = doomed@;
                doomed.push(k);
                proof {
                    gone = gone.insert(k);
                    assert(doomed@[doomed@.len() - 1] == k);
                    assert forall|k2: usize| #[trigger] gone.contains(k2) implies doomed@.contains(k2) by {
                        if k2 != k {
                            assert(d0.contains(k2));
                            let p = choose|p: int| 0 <= p < d0.len() && d0[p] == k2;
                            assert(doomed@[p] == k2);
                        }
                    }
                }
            }
        }
        proof {
            assert(gone =~= cow_inside(m, start, end)) by {
                assert forall|k: usize| cow_inside(m, start, end).contains(k) implies gone.contains(k) by {
                    assert(whole.contains((&k, &m[k])));
                    let j = choose|j: int| 0 <= j < whole.len() && whole[j] == (&k, &m[k]);
                    assert(*whole[j].0 == k);
                }
            }
        }
        let mut q: usize = 0;
        while q < doomed.len()
            invariant
                q <= doomed@.len(),
                forall|k: usize| #[trigger] self.cow_pages@.contains_key(k) ==> m.contains_key(k) && self.cow_pages@[k] == m[k],
                forall|k: usize| #[trigger] m.contains_key(k) && !(start <= k < end) ==> self.cow_pages@.contains_key(k),
                forall|p: int| 0 <= p < q ==> !self.cow_pages@.contains_key(#[trigger] doomed@[p]),
                forall|p: int| 0 <= p < doomed@.len() ==> start <= #[trigger] doomed@[p] < end,
                self.vm_map.regions@ == kept(old(self).vm_map.regions@, start, end),
                self.vm_map.brk == old(self).vm_map.brk,
                self.vm_map.mmap_base == old(self).vm_map.mmap_base,
                removed == old(self).vm_map.regions@.len() - self.vm_map.regions@.len(),
            decreases doomed@.len() - q,
        {
            let ghost before = self.cow_pages@;
            self.cow_pages.remove(&doomed[q]);
            proof {
                assert(self.cow_pages@ == before.remove(doomed@[q as int]));
            }
            q += 1;
        }
        proof {
            assert(self.cow_pages@ =~= cow_outside(m, start, end)) by {
                assert forall|k: usize| m.contains_key(k) && start <= k < end implies !self.cow_pages@.contains_key(k) by {
                    assert(gone.contains(k));
                    assert(doomed@.contains(k));
                    let p = choose|p: int| 0 <= p < doomed@.len() && doomed@[p] == k;
                }
            }
        }
        removed + doomed.len()
    }
}

/// A fresh copy of a region for a forked address space: same range and
/// flags, no file offset or tag, one reference.
pub open spec fn fresh_copy(r: VmRegion) -> VmRegion {
    VmRegion { base: r.base, len: r.len, flags: r.flags, offset: 0, tag: 0, ref_count: 1 }
}

/// A writable region's reference count after a fork: one more for the
/// child's copy and one more for the shared frames, wrapping.
pub open spec fn forked_parent_region(r: VmRegion) -> VmRegion {
    if r.flags & VM_WRITE != 0 {
        VmRegion {
            ref_count: vstd::wrapping::usize_specs::wrapping_add(
                vstd::wrapping::usize_specs::wrapping_add(r.ref_count, 1),
                1,
            ),
            ..r
        }
    } else {
        r
    }
}

impl AddrSpace {
    /// Forks `parent`: the child gets a fresh copy of each region (inserted
    /// in order), the parent's break and mmap base, and every
    /// copy-on-write frame of the parent, whose counts go up by one in both.
    /// Each writable region of the parent gains two references.
    pub fn fork_from(parent: &mut AddrSpace, new_asid: u16) -> (child: AddrSpace)
        requires
            ends_fit(old(parent).vm_map.regions@),
        ensures
            child.asid == new_asid,
            child.page_table_root == 0,
            child.ref_count == 1,
            child.vm_map.brk == old(parent).vm_map.brk,
            child.vm_map.mmap_base == old(parent).vm_map.mmap_base,
            ends_fit(child.vm_map.regions@),
            sorted_disjoint(old(parent).vm_map.regions@) ==> child.vm_map.regions@ == old(parent).vm_map.regions@.map_values(
                |r: VmRegion| fresh_copy(r),
            ),
            final(parent).vm_map.regions@ == old(parent).vm_map.regions@.map_values(
                |r: VmRegion| forked_parent_region(r),
            ),
            final(parent).vm_map.brk == old(parent).vm_map.brk,
            final(parent).vm_map.mmap_base == old(parent).vm_map.mmap_base,
            final(parent).asid == old(parent).asid,
            final(parent).page_table_root == old(parent).page_table_root,
            final(parent).ref_count == old(parent).ref_count,
            final(parent).cow_pages@ == cow_bumped(old(parent).cow_pages@),
            child.cow_pages@ == final(parent).cow_pages@,
    {
        broadcast use vstd::std_specs::btree::group_btree_axioms;

        proof {
            crate::ordkeys::lemma_word_keys_ordered();
        }
        let mut child = AddrSpace::new(new_asid);
        child.vm_map.brk = parent.vm_map.brk;
        child.vm_map.mmap_base = parent.vm_map.mmap_base;
        let ghost regs = parent.vm_map.regions@;
        let n = parent.vm_map.regions.len();
        let mut i: usize = 0;
        while i < n
            invariant
                regs == old(parent).vm_map.regions@,
                ends_fit(regs),
                n == regs.len(),
                i <= n,
                parent.vm_map.regions@.len() == n,
                forall|k: int| 0 <= k < n ==> #[trigger] parent.vm_map.regions@[k] == if k < i {
                    VmRegion {
                        ref_count: if regs[k].flags & VM_WRITE != 0 {
                            vstd::wrapping::usize_specs::wrapping_add(regs[k].ref_count, 1)
                        } else {
                            regs[k].ref_count
                        },
                        ..regs[k]
                    }
                } else {
                    regs[k]
                },
                parent.vm_map.brk == old(parent).vm_map.brk,
                parent.vm_map.mmap_base == old(parent).vm_map.mmap_base,
                parent.asid == old(parent).asid,
                parent.page_table_root == old(parent).page_table_root,
                parent.ref_count == old(parent).ref_count,
                parent.cow_pages@ == old(parent).cow_pages@,
                child.asid == new_asid,
                child.page_table_root == 0,
                child.ref_count == 1,
                child.vm_map.brk == old(parent).vm_map.brk,
                child.vm_map.mmap_base == old(parent).vm_map.mmap_base,
                child.cow_pages@ == Map::<usize, PgFrame>::empty(),
                ends_fit(child.vm_map.regions@),
                sorted_disjoint(regs) ==> child.vm_map.regions@ == regs.take(i as int).map_values(|r: VmRegion| fresh_copy(r)),
            decreases n - i,
        {
            let base = parent.vm_map.regions[i].base;
            let len = parent.vm_map.regions[i].len;
            let flags = parent.vm_map.regions[i].flags;
            let new_region = VmRegion::new(base, len, flags);
            if flags & VM_WRITE != 0 {
                let mut reg = parent.vm_map.regions[i].clone_region();
                reg.ref_up();
                parent.vm_map.regions.set(i, reg);
            }
            let ghost cs = child.vm_map.regions@;
            let _ = child.vm_map.insert(new_region);
            proof {
                if sorted_disjoint(regs) {
                    assert forall|j: int| 0 <= j < cs.len() implies (#[trigger] cs[j]).base <= base && !meets(cs[j], base as int, vstd::wrapping::usize_specs::wrapping_add(base, len) as int) by {
                        assert(cs[j] == fresh_copy(regs[j]));
                        assert(regs[j].base + regs[j].len <= regs[i as int].base);
                    }
                    let c2 = child.vm_map.regions@;
                    let ip = choose|ip: int| #[trigger] insert_pos(cs, base, ip) && (c2 == cs.insert(ip, new_region) || c2 == cs);
                    if ip < cs.len() {
                        assert(cs[ip].base <= base);
                    }
                    assert(c2 =~= regs.take(i as int + 1).map_values(|r: VmRegion| fresh_copy(r)));
                }
            }
            i += 1;
        }
        let ghost cows = parent.cow_pages@;
        let ghost whole = vstd::std_specs::iter::IteratorSpec::remaining(&vstd::std_specs::btree::spec_btree_map_iter(&parent.cow_pages));
        let mut for_parent: BTreeMap<usize, PgFrame> = BTreeMap::new();
        let mut for_child: BTreeMap<usize, PgFrame> = BTreeMap::new();
        for kv in it: parent.cow_pages.iter()
            invariant
                cows == parent.cow_pages@,
                cows == old(parent).cow_pages@,
                whole == vstd::std_specs::iter::IteratorSpec::remaining(&vstd::std_specs::btree::spec_btree_map_iter(&parent.cow_pages)),
                it.seq() == whole,
                forall|j: int| 0 <= j < whole.len() ==> cows.contains_key(*(#[trigger] whole[j]).0) && cows[*whole[j].0] == *whole[j].1,
                forall|j: int| 0 <= j < it.index() ==> for_parent@.contains_key(*(#[trigger] whole[j]).0),
                forall|k: usize| #[trigger] for_parent@.contains_key(k) ==> cows.contains_key(k) && for_parent@[k] == cow_bumped(cows)[k],
                for_child@ == for_parent@,
        {
            proof {
                assert(kv == whole[it.index() as int]);
            }
            let mut frame = PgFrame::with_rc(kv.1.count());
            frame.up();
            let cnt = frame.count();
            for_parent.insert(*kv.0, frame);
            for_child.insert(*kv.0, PgFrame::with_rc(cnt));
            assert(for_child@ =~= for_parent@);
        }
        proof {
            assert(for_parent@ =~= cow_bumped(cows)) by {
                assert forall|k: usize| cows.contains_key(k) implies for_parent@.contains_key(k) by {
                    assert(whole.contains((&k, &cows[k])));
                    let j = choose|j: int| 0 <= j < whole.len() && whole[j] == (&k, &cows[k]);
                    assert(*whole[j].0 == k);
                }
            }
        }
        parent.cow_pages = for_parent;
        child.cow_pages = for_child;
        let mut i: usize = 0;
        while i < n
            invariant
                regs == old(parent).vm_map.regions@,
                n == regs.len(),
                i <= n,
                parent.vm_map.regions@.len() == n,
                forall|k: int| 0 <= k < n ==> #[trigger] parent.vm_map.regions@[k] == if k < i {
                    forked_parent_region(regs[k])
                } else {
                    VmRegion {
                        ref_count: if regs[k].flags & VM_WRITE != 0 {
                            vstd::wrapping::usize_specs::wrapping_add(regs[k].ref_count, 1)
                        } else {
                            regs[k].ref_count
                        },
                        ..regs[k]
                    }
                },
                parent.vm_map.brk == old(parent).vm_map.brk,
                parent.vm_map.mmap_base == old(parent).vm_map.mmap_base,
                parent.asid == old(parent).asid,
                parent.page_table_root == old(parent).page_table_root,
                parent.ref_count == old(parent).ref_count,
                parent.cow_pages@ == child.cow_pages@,
            decreases n - i,
        {
            if parent.vm_map.regions[i].flags & VM_WRITE != 0 {
                let mut reg = parent.vm_map.regions[i].clone_region();
                reg.ref_up();
                parent.vm_map.regions.set(i, reg);
            }
            i += 1;
        }
        assert(parent.vm_map.regions@ =~= regs.map_values(|r: VmRegion| forked_parent_region(r)));
        proof {
            if sorted_disjoint(regs) {
                assert(regs.take(n as int) =~= regs);
            }
        }
        child
    }
}


impl VmRegion {
    /// A field-by-field copy.
    pub fn clone_region(&self) -> (r: VmRegion)
        ensures
            r == *self,
    {
        VmRegion {
            base: self.base,
            len: self.len,
            flags: self.flags,
            offset: self.offset,
            tag: self.tag,
            ref_count: self.ref_count,
        }
    }
}

/// The insertion point exists: the first region from `from` on that starts
/// above `rb`, given that none before `from` does.
proof fn first_above(s: Seq<VmRegion>, rb: usize, from: int) -> (i: int)
    requires
        0 <= from <= s.len(),
        forall|j: int| 0 <= j < from ==> (#[trigger] s[j]).base <= rb,
    ensures
        from <= i,
        insert_pos(s, rb, i),
    decreases s.len() - from,
{
    if from == s.len() || s[from].base > rb {
        from
    } else {
        first_above(s, rb, from + 1)
    }
}

} // verus!
