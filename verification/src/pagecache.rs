//! A page cache with least-recently-used eviction and pinning.
use vstd::prelude::*;
use std::collections::VecDeque;
use crate::fdtable::{IdMap, fd_at, fds_increasing, lemma_as_map_set, lemma_fd_at_unique};

verus! {

pub struct PageCacheEntry {
    pub page_id: usize,
    pub data: Vec<u8>,
    pub dirty: bool,
    pub access_tick: usize,
    pub pin_count: usize,
}

pub struct PageCache {
    pub entries: IdMap<PageCacheEntry>,
    pub capacity: usize,
    pub hits: usize,
    pub misses: usize,
    pub evictions: usize,
    pub lru_order: VecDeque<usize>,
}

/// A counter that wraps around at the top of the word.
pub open spec fn wrap_inc(x: usize) -> usize {
    if x == usize::MAX { 0 } else { (x + 1) as usize }
}

pub fn bump(x: usize) -> (r: usize)
    ensures
        r == wrap_inc(x),
{
    if x == usize::MAX { 0 } else { x + 1 }
}

/// `s` without any occurrence of `x`, in order.
pub open spec fn without(s: Seq<usize>, x: usize) -> Seq<usize>
    decreases s.len(),
{
    if s.len() == 0 {
        s
    } else {
        let r = without(s.drop_last(), x);
        if s.last() == x { r } else { r.push(s.last()) }
    }
}

/// The first page along `lru` that is cached and not pinned.
pub open spec fn first_evictable(lru: Seq<usize>, m: Map<usize, PageCacheEntry>) -> Option<usize>
    decreases lru.len(),
{
    if lru.len() == 0 {
        None
    } else if m.contains_key(lru[0]) && m[lru[0]].pin_count == 0 {
        Some(lru[0])
    } else {
        first_evictable(lru.drop_first(), m)
    }
}

/// The entries with every dirty page of `[lo, hi)` written back.
pub open spec fn flushed(s: Seq<(usize, PageCacheEntry)>, lo: int, hi: int) -> Seq<(usize, PageCacheEntry)> {
    Seq::new(s.len(), |j: int| if lo <= s[j].0 < hi && s[j].1.dirty {
        (s[j].0, PageCacheEntry { dirty: false, ..s[j].1 })
    } else {
        s[j]
    })
}

/// How many of the first `n` entries are dirty pages of `[lo, hi)`.
pub open spec fn dirty_in(s: Seq<(usize, PageCacheEntry)>, lo: int, hi: int, n: int) -> int
    decreases n,
{
    if n <= 0 {
        0
    } else {
        dirty_in(s, lo, hi, n - 1) + (if lo <= s[n - 1].0 < hi && s[n - 1].1.dirty { 1int } else { 0int })
    }
}

pub(crate) fn retain_without(v: &Vec<usize>, x: usize) -> (r: Vec<usize>)
    ensures
        r@ == without(v@, x),
{
    let mut out: Vec<usize> = Vec::new();
    let mut i: usize = 0;
    while i < v.len()
        invariant
            i <= v@.len(),
            out@ == without(v@.take(i as int), x),
        decreases v@.len() - i,
    {
        proof {
            assert(v@.take(i as int + 1).drop_last() =~= v@.take(i as int));
        }
        if v[i] != x {
            out.push(v[i]);
        }
        i = i + 1;
    }
    assert(v@.take(v@.len() as int) =~= v@);
    out
}

/// The LRU order without `x`.
fn lru_without(v: &VecDeque<usize>, x: usize) -> (r: VecDeque<usize>)
    ensures
        r@ == without(v@, x),
{
    let mut out: VecDeque<usize> = VecDeque::new();
    let mut i: usize = 0;
    while i < v.len()
        invariant
            i <= v@.len(),
            out@ == without(v@.take(i as int), x),
        decreases v@.len() - i,
    {
        proof {
            assert(v@.take(i as int + 1).drop_last() =~= v@.take(i as int));
        }
        if v[i] != x {
            out.push_back(v[i]);
        }
        i = i + 1;
    }
    assert(v@.take(v@.len() as int) =~= v@);
    out
}

/// A page just cached is cached with the bytes given, so a lookup of it
/// hits and hands them back; another cached page that is not the one a
/// full cache gives up keeps its bytes.
pub proof fn law_insert_then_lookup(c: PageCache, page_id: usize, data: Vec<u8>, now: usize, other: usize)
    ensures
        c.pages_after_insert(page_id, data, now).contains_key(page_id),
        c.pages_after_insert(page_id, data, now)[page_id].data@ == data@,
        other != page_id && c.size() < c.capacity && c.pages().contains_key(other) ==> c.pages_after_insert(
            page_id,
            data,
            now,
        )[other] == c.pages()[other],
{
}

impl PageCache {
    pub open spec fn wf(&self) -> bool {
        self.entries.wf()
    }

    /// The cached pages by page number.
    pub open spec fn pages(&self) -> Map<usize, PageCacheEntry> {
        self.entries.view_map()
    }

    /// How many pages are cached.
    pub open spec fn size(&self) -> nat {
        self.entries.entries@.len()
    }

    /// The pages left after one eviction.
    pub open spec fn pages_after_evict(&self) -> Map<usize, PageCacheEntry> {
        match first_evictable(self.lru_order@, self.pages()) {
            Some(id) => self.pages().remove(id),
            None => self.pages(),
        }
    }

    /// The recency order left after one eviction.
    pub open spec fn lru_after_evict(&self) -> Seq<usize> {
        match first_evictable(self.lru_order@, self.pages()) {
            Some(id) => without(self.lru_order@, id),
            None => self.lru_order@,
        }
    }

    /// The pages after `page_id` is cached with `data` at `now`: a full
    /// cache first gives up one page.
    pub open spec fn pages_after_insert(&self, page_id: usize, data: Vec<u8>, now: usize) -> Map<usize, PageCacheEntry> {
        let base = if self.size() >= self.capacity { self.pages_after_evict() } else { self.pages() };
        base.insert(page_id, PageCacheEntry { page_id, data, dirty: false, access_tick: now, pin_count: 0 })
    }

    pub open spec fn evictions_after_evict(&self) -> usize {
        match first_evictable(self.lru_order@, self.pages()) {
            Some(id) => wrap_inc(self.evictions),
            None => self.evictions,
        }
    }

    pub fn new(capacity: usize) -> (r: Self)
        ensures
            r.wf(),
            r.pages() == Map::<usize, PageCacheEntry>::empty(),
            r.size() == 0,
            r.capacity == capacity,
            r.hits == 0 && r.misses == 0 && r.evictions == 0,
            r.lru_order@ == Seq::<usize>::empty(),
    {
        let r = PageCache {
            entries: IdMap::new(),
            capacity,
            hits: 0,
            misses: 0,
            evictions: 0,
            lru_order: VecDeque::new(),
        };
        assert(r.pages() =~= Map::<usize, PageCacheEntry>::empty());
        r
    }

    /// Looks a page up: on a hit the page becomes the most recent and is
    /// stamped with `now`.
    pub fn lookup(&mut self, page_id: usize, now: usize) -> (r: Option<Vec<u8>>)
        requires
            old(self).wf(),
        ensures
            final(self).wf(),
            final(self).capacity == old(self).capacity,
            final(self).evictions == old(self).evictions,
            old(self).pages().contains_key(page_id) ==> {
                &&& r matches Some(d) && d@ == old(self).pages()[page_id].data@
                &&& final(self).hits == wrap_inc(old(self).hits)
                &&& final(self).misses == old(self).misses
                &&& final(self).lru_order@ == without(old(self).lru_order@, page_id).push(page_id)
                &&& final(self).pages() == old(self).pages().insert(
                    page_id,
                    PageCacheEntry { access_tick: now, ..old(self).pages()[page_id] },
                )
            },
            !old(self).pages().contains_key(page_id) ==> {
                &&& r is None
                &&& final(self).misses == wrap_inc(old(self).misses)
                &&& final(self).hits == old(self).hits
                &&& final(self).lru_order@ == old(self).lru_order@
                &&& final(self).entries == old(self).entries
            },
    {
        match self.entries.find(page_id) {
            Some(i) => {
                let ghost before = self.entries.entries@;
                proof {
                    let j = choose|j: int| fd_at(before, page_id, j);
                    lemma_fd_at_unique(before, page_id, i as int, j);
                }
                self.hits = bump(self.hits);
                let lru = lru_without(&self.lru_order, page_id);
                self.lru_order = lru;
                self.lru_order.push_back(page_id);
                self.entries.entries[i].1.access_tick = now;
                proof {
                    assert(self.entries.entries@ == before.update(i as int, (before[i as int].0,
                        PageCacheEntry { access_tick: now, ..before[i as int].1 })));
                    lemma_as_map_set(before, i as int, PageCacheEntry { access_tick: now, ..before[i as int].1 });
                }
                let d = self.entries.entries[i].1.data.clone();
                Some(d)
            },
            None => {
                proof {
                    assert(!self.pages().dom().contains(page_id));
                }
                self.misses = bump(self.misses);
                None
            },
        }
    }

    /// Drops the least recently used page that is not pinned.
    pub fn evict_lru(&mut self) -> (r: bool)
        requires
            old(self).wf(),
        ensures
            final(self).wf(),
            r == first_evictable(old(self).lru_order@, old(self).pages()) is Some,
            final(self).pages() == old(self).pages_after_evict(),
            final(self).lru_order@ == old(self).lru_after_evict(),
            final(self).evictions == old(self).evictions_after_evict(),
            final(self).capacity == old(self).capacity,
            final(self).hits == old(self).hits,
            final(self).misses == old(self).misses,
            !r ==> final(self).entries == old(self).entries,
    {
        let ghost m = self.pages();
        let ghost lru = self.lru_order@;
        let mut victim: Option<usize> = None;
        let mut i: usize = 0;
        assert(lru.skip(0) =~= lru);
        while i < self.lru_order.len()
            invariant_except_break
                i <= lru.len(),
                victim is None,
                first_evictable(lru, m) == first_evictable(lru.skip(i as int), m),
            invariant
                self.wf(),
                m == self.pages(),
                lru == self.lru_order@,
            ensures
                victim == first_evictable(lru, m),
            decreases lru.len() - i,
        {
            let id = self.lru_order[i];
            assert(lru.skip(i as int)[0] == id);
            match self.entries.lookup(id) {
                Some(e) => {
                    if e.pin_count == 0 {
                        victim = Some(id);
                        break;
                    }
                },
                None => {},
            }
            assert(lru.skip(i as int).drop_first() =~= lru.skip(i as int + 1));
            i = i + 1;
        }
        match victim {
            Some(id) => {
                let _ = self.entries.remove(id);
                let lru2 = lru_without(&self.lru_order, id);
                self.lru_order = lru2;
                self.evictions = bump(self.evictions);
                true
            },
            None => false,
        }
    }

    /// Caches `data` as page `page_id`, stamped with `now`; a full cache
    /// first evicts one page.
    pub fn insert(&mut self, page_id: usize, data: Vec<u8>, now: usize)
        requires
            old(self).wf(),
        ensures
            final(self).wf(),
            final(self).capacity == old(self).capacity,
            final(self).hits == old(self).hits,
            final(self).misses == old(self).misses,
            final(self).pages() == old(self).pages_after_insert(page_id, data, now),
            old(self).size() >= old(self).capacity ==> {
                &&& final(self).lru_order@ == old(self).lru_after_evict().push(page_id)
                &&& final(self).evictions == old(self).evictions_after_evict()
            },
            old(self).size() < old(self).capacity ==> {
                &&& final(self).lru_order@ == old(self).lru_order@.push(page_id)
                &&& final(self).evictions == old(self).evictions
            },
    {
        if self.entries.len() >= self.capacity {
            self.evict_lru();
        }
        let entry = PageCacheEntry { page_id, data, dirty: false, access_tick: now, pin_count: 0 };
        let _ = self.entries.insert(page_id, entry);
        self.lru_order.push_back(page_id);
    }

    /// Marks a cached page dirty.
    pub fn mark_dirty(&mut self, page_id: usize)
        requires
            old(self).wf(),
        ensures
            final(self).wf(),
            old(self).pages().contains_key(page_id) ==> final(self).pages() == old(self).pages().insert(
                page_id,
                PageCacheEntry { dirty: true, ..old(self).pages()[page_id] },
            ),
            !old(self).pages().contains_key(page_id) ==> final(self).entries == old(self).entries,
            final(self).lru_order == old(self).lru_order,
            final(self).capacity == old(self).capacity,
            final(self).hits == old(self).hits,
            final(self).misses == old(self).misses,
            final(self).evictions == old(self).evictions,
    {
        match self.entries.find(page_id) {
            Some(i) => {
                let ghost before = self.entries.entries@;
                proof {
                    let j = choose|j: int| fd_at(before, page_id, j);
                    lemma_fd_at_unique(before, page_id, i as int, j);
                }
                self.entries.entries[i].1.dirty = true;
                proof {
                    assert(self.entries.entries@ == before.update(i as int, (before[i as int].0,
                        PageCacheEntry { dirty: true, ..before[i as int].1 })));
                    lemma_as_map_set(before, i as int, PageCacheEntry { dirty: true, ..before[i as int].1 });
                }
            },
            None => {
                assert(!self.pages().dom().contains(page_id));
            },
        }
    }

    /// Writes back the dirty pages numbered in `[start, end)`; `end` may be
    /// one past the largest page number. Returns how many were dirty.
    fn flush_between(&mut self, start: usize, end: u128) -> (r: usize)
        requires
            old(self).wf(),
        ensures
            final(self).wf(),
            final(self).entries.entries@ == flushed(old(self).entries.entries@, start as int, end as int),
            r == dirty_in(old(self).entries.entries@, start as int, end as int, old(self).size() as int),
            final(self).lru_order == old(self).lru_order,
            final(self).capacity == old(self).capacity,
            final(self).hits == old(self).hits,
            final(self).misses == old(self).misses,
            final(self).evictions == old(self).evictions,
    {
        let ghost before = self.entries.entries@;
        let mut count: usize = 0;
        let mut i: usize = 0;
        while i < self.entries.entries.len()
            invariant
                self.entries.entries@.len() == before.len(),
                i <= before.len(),
                fds_increasing(before),
                count <= i,
                count == dirty_in(before, start as int, end as int, i as int),
                forall|j: int| 0 <= j < i ==> self.entries.entries@[j] == flushed(before, start as int, end as int)[j],
                forall|j: int| i <= j < before.len() ==> self.entries.entries@[j] == before[j],
                self.lru_order == old(self).lru_order,
                self.capacity == old(self).capacity,
                self.hits == old(self).hits,
                self.misses == old(self).misses,
                self.evictions == old(self).evictions,
            decreases before.len() - i,
        {
            let k = self.entries.entries[i].0;
            if start <= k && (k as u128) < end && self.entries.entries[i].1.dirty {
                self.entries.entries[i].1.dirty = false;
                count = count + 1;
            }
            i = i + 1;
        }
        proof {
            let s = self.entries.entries@;
            assert(s =~= flushed(before, start as int, end as int));
            assert forall|a: int, b: int| 0 <= a < b < s.len() implies (#[trigger] s[a]).0 < (#[trigger] s[b]).0 by {
                assert(before[a].0 < before[b].0);
            }
        }
        count
    }

    /// Writes back every dirty page; returns how many there were.
    pub fn writeback_all(&mut self) -> (r: usize)
        requires
            old(self).wf(),
        ensures
            final(self).wf(),
            final(self).entries.entries@ == flushed(old(self).entries.entries@, 0, usize::MAX as int + 1),
            r == dirty_in(old(self).entries.entries@, 0, usize::MAX as int + 1, old(self).size() as int),
            final(self).lru_order == old(self).lru_order,
            final(self).capacity == old(self).capacity,
    {
        let end: u128 = usize::MAX as u128 + 1;
        self.flush_between(0, end)
    }

    /// Writes back the dirty pages numbered in `[start, end)`.
    pub fn flush_range(&mut self, start: usize, end: usize) -> (r: usize)
        requires
            old(self).wf(),
        ensures
            final(self).wf(),
            final(self).entries.entries@ == flushed(old(self).entries.entries@, start as int, end as int),
            r == dirty_in(old(self).entries.entries@, start as int, end as int, old(self).size() as int),
            final(self).lru_order == old(self).lru_order,
            final(self).capacity == old(self).capacity,
    {
        self.flush_between(start, end as u128)
    }

    /// The hit, miss and eviction counters.
    pub fn stats(&self) -> (r: (usize, usize, usize))
        ensures
            r == (self.hits, self.misses, self.evictions),
    {
        (self.hits, self.misses, self.evictions)
    }

    /// Pins a cached page against eviction; false if it is not cached.
    pub fn pin(&mut self, page_id: usize) -> (r: bool)
        requires
            old(self).wf(),
            old(self).pages().contains_key(page_id) ==> old(self).pages()[page_id].pin_count < usize::MAX,
        ensures
            final(self).wf(),
            r == old(self).pages().contains_key(page_id),
            r ==> final(self).pages() == old(self).pages().insert(
                page_id,
                PageCacheEntry { pin_count: (old(self).pages()[page_id].pin_count + 1) as usize, ..old(self).pages()[page_id] },
            ),
            !r ==> final(self).entries == old(self).entries,
            final(self).lru_order == old(self).lru_order,
            final(self).capacity == old(self).capacity,
    {
        match self.entries.find(page_id) {
            Some(i) => {
                let ghost before = self.entries.entries@;
                proof {
                    let j = choose|j: int| fd_at(before, page_id, j);
                    lemma_fd_at_unique(before, page_id, i as int, j);
                }
                let p = self.entries.entries[i].1.pin_count;
                self.entries.entries[i].1.pin_count = p + 1;
                proof {
                    let e = PageCacheEntry { pin_count: (p + 1) as usize, ..before[i as int].1 };
                    assert(self.entries.entries@ == before.update(i as int, (before[i as int].0, e)));
                    lemma_as_map_set(before, i as int, e);
                }
                true
            },
            None => {
                assert(!self.pages().dom().contains(page_id));
                false
            },
        }
    }

    /// Drops one pin of a cached page; false if it is not cached.
    pub fn unpin(&mut self, page_id: usize) -> (r: bool)
        requires
            old(self).wf(),
        ensures
            final(self).wf(),
            r == old(self).pages().contains_key(page_id),
            r && old(self).pages()[page_id].pin_count > 0 ==> final(self).pages() == old(self).pages().insert(
                page_id,
                PageCacheEntry { pin_count: (old(self).pages()[page_id].pin_count - 1) as usize, ..old(self).pages()[page_id] },
            ),
            !(r && old(self).pages()[page_id].pin_count > 0) ==> final(self).entries == old(self).entries,
            final(self).lru_order == old(self).lru_order,
            final(self).capacity == old(self).capacity,
    {
        match self.entries.find(page_id) {
            Some(i) => {
                let ghost before = self.entries.entries@;
                proof {
                    let j = choose|j: int| fd_at(before, page_id, j);
                    lemma_fd_at_unique(before, page_id, i as int, j);
                }
                let p = self.entries.entries[i].1.pin_count;
                if p > 0 {
                    self.entries.entries[i].1.pin_count = p - 1;
                    proof {
                        let e = PageCacheEntry { pin_count: (p - 1) as usize, ..before[i as int].1 };
                        assert(self.entries.entries@ == before.update(i as int, (before[i as int].0, e)));
                        lemma_as_map_set(before, i as int, e);
                    }
                }
                true
            },
            None => {
                assert(!self.pages().dom().contains(page_id));
                false
            },
        }
    }

    /// Drops a page from the cache; false if it was not cached.
    pub fn invalidate(&mut self, page_id: usize) -> (r: bool)
        requires
            old(self).wf(),
        ensures
            final(self).wf(),
            r == old(self).pages().contains_key(page_id),
            final(self).pages() == old(self).pages().remove(page_id),
            r ==> final(self).lru_order@ == without(old(self).lru_order@, page_id),
            !r ==> final(self).lru_order@ == old(self).lru_order@,
            final(self).capacity == old(self).capacity,
    {
        match self.entries.remove(page_id) {
            Some(_) => {
                let lru = lru_without(&self.lru_order, page_id);
                self.lru_order = lru;
                true
            },
            None => {
                assert(!old(self).pages().dom().contains(page_id));
                false
            },
        }
    }
}

} // verus!
