//! A chained block cache: blocks are kept in chains picked by a hash of the
//! block number, and a missing block is filled from the device on demand.
use vstd::prelude::*;
use crate::sync::{KernLock, Spin};

verus! {

pub const BLOCK_BYTES: usize = 512;

pub struct CacheSlot {
    pub id: usize,
    pub payload: Vec<u8>,
    pub modified: bool,
}

impl View for CacheSlot {
    type V = (usize, Seq<u8>, bool);

    open spec fn view(&self) -> (usize, Seq<u8>, bool) {
        (self.id, self.payload@, self.modified)
    }
}

pub struct CacheChain {
    pub lk: Spin,
    pub items: Vec<CacheSlot>,
}

impl CacheChain {
    pub fn new() -> (r: Self)
        ensures
            !r.lk.v,
            r.items@.len() == 0,
    {
        CacheChain { lk: Spin::new(), items: Vec::new() }
    }

    pub open spec fn slots(&self) -> Seq<(usize, Seq<u8>, bool)> {
        slot_views(self.items@)
    }
}

pub struct BlockCache {
    pub chains: Vec<CacheChain>,
    pub width: usize,
}

pub open spec fn slot_views(v: Seq<CacheSlot>) -> Seq<(usize, Seq<u8>, bool)> {
    Seq::new(v.len(), |j: int| v[j]@)
}

/// The chain that block `k` is fetched through.
pub open spec fn fetch_chain(k: usize, width: usize) -> int {
    ((k ^ (k >> 7usize)) % width) as int
}

/// What the device hands back for block `k` read at `tick`.
pub open spec fn block_fill(k: usize, tick: usize) -> Seq<u8> {
    Seq::new(
        BLOCK_BYTES as nat,
        |i: int|
            (vstd::wrapping::usize_specs::wrapping_add(
                vstd::wrapping::usize_specs::wrapping_mul(k, 0x9E3779B9usize) ^ tick,
                i as usize,
            ) & 0xffusize) as u8,
    )
}

/// `j` is the first slot of `s` that holds block `k`.
pub open spec fn first_slot(s: Seq<(usize, Seq<u8>, bool)>, k: usize, j: int) -> bool {
    &&& 0 <= j < s.len()
    &&& s[j].0 == k
    &&& forall|i: int| 0 <= i < j ==> (#[trigger] s[i]).0 != k
}

pub open spec fn holds_block(s: Seq<(usize, Seq<u8>, bool)>, k: usize) -> bool {
    exists|j: int| 0 <= j < s.len() && (#[trigger] s[j]).0 == k
}

/// The slots of `s` that do not hold block `k`, in order.
pub open spec fn without_block(s: Seq<(usize, Seq<u8>, bool)>, k: usize) -> Seq<(usize, Seq<u8>, bool)>
    decreases s.len(),
{
    if s.len() == 0 {
        s
    } else {
        let w = without_block(s.drop_last(), k);
        if s.last().0 == k { w } else { w.push(s.last()) }
    }
}

/// A slot survives eviction when it is clean or young enough.
pub open spec fn stays_warm(slot: (usize, Seq<u8>, bool), now: usize, max_age: usize) -> bool {
    !slot.2 || vstd::wrapping::usize_specs::wrapping_sub(
        now,
        vstd::wrapping::usize_specs::wrapping_mul(slot.0, 3),
    ) < max_age
}

/// The slots of `s` that survive eviction, in order.
pub open spec fn warm_slots(s: Seq<(usize, Seq<u8>, bool)>, now: usize, max_age: usize) -> Seq<(usize, Seq<u8>, bool)>
    decreases s.len(),
{
    if s.len() == 0 {
        s
    } else {
        let w = warm_slots(s.drop_last(), now, max_age);
        if stays_warm(s.last(), now, max_age) { w.push(s.last()) } else { w }
    }
}

pub open spec fn clean_slot(slot: (usize, Seq<u8>, bool)) -> (usize, Seq<u8>, bool) {
    (slot.0, slot.1, false)
}

pub open spec fn cleaned(s: Seq<(usize, Seq<u8>, bool)>) -> Seq<(usize, Seq<u8>, bool)> {
    Seq::new(s.len(), |j: int| clean_slot(s[j]))
}

pub open spec fn count_dirty(s: Seq<(usize, Seq<u8>, bool)>) -> nat
    decreases s.len(),
{
    if s.len() == 0 {
        0
    } else {
        count_dirty(s.drop_last()) + if s.last().2 { 1nat } else { 0nat }
    }
}

/// The number of slots over all chains.
pub open spec fn total_slots(c: Seq<Seq<(usize, Seq<u8>, bool)>>) -> nat
    decreases c.len(),
{
    if c.len() == 0 {
        0
    } else {
        total_slots(c.drop_last()) + c.last().len()
    }
}

/// The number of modified slots over all chains.
pub open spec fn total_dirty(c: Seq<Seq<(usize, Seq<u8>, bool)>>) -> nat
    decreases c.len(),
{
    if c.len() == 0 {
        0
    } else {
        total_dirty(c.drop_last()) + count_dirty(c.last())
    }
}

impl BlockCache {
    /// The slots of each chain.
    pub open spec fn view_chains(&self) -> Seq<Seq<(usize, Seq<u8>, bool)>> {
        Seq::new(self.chains@.len(), |c: int| self.chains@[c].slots())
    }

    /// One chain per hash bucket, none of them locked.
    pub open spec fn wf(&self) -> bool {
        &&& self.chains@.len() == self.width
        &&& forall|c: int| 0 <= c < self.chains@.len() ==> !(#[trigger] self.chains@[c]).lk.v
    }

    pub fn new(w: usize) -> (r: Self)
        ensures
            r.wf(),
            r.width == w,
            r.view_chains() == Seq::new(w as nat, |c: int| Seq::<(usize, Seq<u8>, bool)>::empty()),
    {
        let mut c: Vec<CacheChain> = Vec::new();
        let mut i: usize = 0;
        while i < w
            invariant
                i <= w,
                c@.len() == i,
                forall|j: int| 0 <= j < i ==> !(#[trigger] c@[j]).lk.v && c@[j].items@.len() == 0,
            decreases w - i,
        {
            c.push(CacheChain::new());
            i = i + 1;
        }
        let r = BlockCache { chains: c, width: w };
        assert(r.view_chains() =~= Seq::new(w as nat, |c: int| Seq::<(usize, Seq<u8>, bool)>::empty())) by {
            assert forall|j: int| 0 <= j < w implies r.view_chains()[j] =~= Seq::<(usize, Seq<u8>, bool)>::empty() by {
                assert(r.chains@[j].items@.len() == 0);
            }
        }
        r
    }

    pub fn idx(&self, k: usize) -> (r: usize)
        requires
            self.width > 0,
        ensures
            r == k % self.width,
    {
        k % self.width
    }

    /// Whether block `k` is cached in its chain, so that `fetch` would not
    /// read it from the device.
    pub fn cached(&self, k: usize) -> (r: bool)
        requires
            self.wf(),
            self.width > 0,
        ensures
            r == holds_block(self.view_chains()[fetch_chain(k, self.width)], k),
    {
        let ci = (k ^ (k >> 7usize)) % self.width;
        let ghost s = self.view_chains()[ci as int];
        let n = self.chains[ci].items.len();
        let mut j: usize = 0;
        while j < n
            invariant
                ci == fetch_chain(k, self.width),
                0 <= ci < self.chains@.len(),
                s == self.view_chains()[ci as int],
                s == self.chains@[ci as int].slots(),
                n == s.len(),
                j <= n,
                forall|i: int| 0 <= i < j ==> (#[trigger] s[i]).0 != k,
            decreases n - j,
        {
            assert(s[j as int] == self.chains@[ci as int].items@[j as int]@);
            if self.chains[ci].items[j].id == k {
                return true;
            }
            j = j + 1;
        }
        false
    }

    /// Looks block `k` up in its chain; a miss reads it from the device at
    /// clock `tick`, caches it clean at the end of the chain, and hands back
    /// a copy.
    pub fn fetch(&mut self, k: usize, tick: usize) -> (r: Option<Vec<u8>>)
        requires
            old(self).wf(),
            old(self).width > 0,
        ensures
            final(self).wf(),
            final(self).width == old(self).width,
            r is Some,
            ({
                let c = fetch_chain(k, old(self).width);
                let s = old(self).view_chains()[c];
                if holds_block(s, k) {
                    &&& final(self).view_chains() == old(self).view_chains()
                    &&& exists|j: int| #[trigger] first_slot(s, k, j) && r.unwrap()@ == s[j].1
                } else {
                    &&& r.unwrap()@ == block_fill(k, tick)
                    &&& final(self).view_chains() == old(self).view_chains().update(
                        c,
                        s.push((k, block_fill(k, tick), false)),
                    )
                }
            }),
    {
        let ci = (k ^ (k >> 7usize)) % self.width;
        let ghost c = ci as int;
        let ghost before = self.view_chains();
        self.chains[ci].lk.acquire();
        let mut found: Option<Vec<u8>> = None;
        let mut j: usize = 0;
        let n = self.chains[ci].items.len();
        while j < n
            invariant_except_break
                found is None,
            invariant
                0 <= c < self.chains@.len(),
                ci == c,
                n == self.chains@[c].items@.len(),
                self.chains@[c].slots() == before[c],
                j <= n,
                forall|i: int| 0 <= i < j ==> (#[trigger] before[c][i]).0 != k,
            ensures
                found is None ==> !holds_block(before[c], k),
                found matches Some(v) ==> exists|jj: int| #[trigger] first_slot(before[c], k, jj) && v@ == before[c][jj].1,
            decreases n - j,
        {
            assert(before[c][j as int] == self.chains@[c].items@[j as int]@);
            if self.chains[ci].items[j].id == k {
                let src = &self.chains[ci].items[j].payload;
                let mut cloned: Vec<u8> = Vec::new();
                let mut b: usize = 0;
                while b < src.len()
                    invariant
                        b <= src@.len(),
                        cloned@ == src@.take(b as int),
                    decreases src@.len() - b,
                {
                    cloned.push(src[b]);
                    b = b + 1;
                    assert(cloned@ =~= src@.take(b as int));
                }
                assert(cloned@ =~= src@);
                assert(first_slot(before[c], k, j as int));
                found = Some(cloned);
                break;
            }
            j = j + 1;
        }
        if let Some(data) = found {
            self.chains[ci].lk.release();
            assert(self.view_chains() =~= before) by {
                assert forall|x: int| 0 <= x < before.len() implies self.view_chains()[x] =~= before[x] by {}
            }
            return Some(data);
        }
        let seed = k.wrapping_mul(0x9E3779B9usize) ^ tick;
        let mut payload: Vec<u8> = Vec::new();
        let mut i: usize = 0;
        while i < BLOCK_BYTES
            invariant
                i <= BLOCK_BYTES,
                seed == vstd::wrapping::usize_specs::wrapping_mul(k, 0x9E3779B9usize) ^ tick,
                payload@ == block_fill(k, tick).take(i as int),
            decreases BLOCK_BYTES - i,
        {
            payload.push((seed.wrapping_add(i) & 0xff) as u8);
            i = i + 1;
            assert(payload@ =~= block_fill(k, tick).take(i as int));
        }
        assert(payload@ =~= block_fill(k, tick));
        let mut result: Vec<u8> = Vec::new();
        let mut b: usize = 0;
        while b < payload.len()
            invariant
                b <= payload@.len(),
                result@ == payload@.take(b as int),
            decreases payload@.len() - b,
        {
            result.push(payload[b]);
            b = b + 1;
            assert(result@ =~= payload@.take(b as int));
        }
        assert(result@ =~= payload@);
        let slot = CacheSlot { id: k, payload, modified: false };
        self.chains[ci].items.push(slot);
        self.chains[ci].lk.release();
        assert(self.view_chains() =~= before.update(c, before[c].push((k, block_fill(k, tick), false)))) by {
            assert(self.view_chains()[c] =~= before[c].push((k, block_fill(k, tick), false)));
        }
        Some(result)
    }

    /// Writes every modified slot back, under the big lock, which is then
    /// left free whatever depth the caller held it at.
    pub fn sync_all(&mut self, gkl: &mut KernLock, id: usize)
        requires
            old(self).wf(),
            old(gkl).can_enter(id),
        ensures
            final(self).wf(),
            final(self).width == old(self).width,
            *final(gkl) == (KernLock { flag: false, holder: 0, depth: 0 }),
            final(self).view_chains() == Seq::new(
                old(self).view_chains().len(),
                |c: int| cleaned(old(self).view_chains()[c]),
            ),
    {
        gkl.enter(id);
        self.clean_all();
        gkl.holder = 0;
        gkl.depth = 0;
        gkl.flag = false;
    }

    /// Marks every slot of every chain clean, taking each chain's lock in
    /// turn.
    pub fn clean_all(&mut self)
        requires
            old(self).wf(),
        ensures
            final(self).wf(),
            final(self).width == old(self).width,
            final(self).view_chains() == Seq::new(
                old(self).view_chains().len(),
                |c: int| cleaned(old(self).view_chains()[c]),
            ),
    {
        let ghost before = self.view_chains();
        let mut synced: usize = 0;
        let mut c: usize = 0;
        while c < self.chains.len()
            invariant
                self.wf(),
                self.width == old(self).width,
                c <= self.chains@.len(),
                before.len() == self.chains@.len(),
                forall|x: int| 0 <= x < c ==> #[trigger] self.chains@[x].slots() == cleaned(before[x]),
                forall|x: int| c <= x < before.len() ==> #[trigger] self.chains@[x].slots() == before[x],
            decreases self.chains@.len() - c,
        {
            assert(self.chains@[c as int].slots() == before[c as int]);
            self.chains[c].lk.acquire();
            assert(self.chains@[c as int].slots() == before[c as int]);
            let n = self.chains[c].items.len();
            let mut j: usize = 0;
            while j < n
                invariant
                    c < self.chains@.len(),
                    before.len() == self.chains@.len(),
                    self.chains@[c as int].lk.v,
                    forall|x: int| 0 <= x < self.chains@.len() && x != c ==> !(#[trigger] self.chains@[x]).lk.v,
                    self.chains@.len() == self.width,
                    self.width == old(self).width,
                    n == self.chains@[c as int].items@.len(),
                    n == before[c as int].len(),
                    j <= n,
                    forall|i: int| 0 <= i < j ==> (#[trigger] self.chains@[c as int].items@[i])@ == clean_slot(before[c as int][i]),
                    forall|i: int| j <= i < n ==> (#[trigger] self.chains@[c as int].items@[i])@ == before[c as int][i],
                    forall|x: int| 0 <= x < c ==> #[trigger] self.chains@[x].slots() == cleaned(before[x]),
                    forall|x: int| c < x < before.len() ==> #[trigger] self.chains@[x].slots() == before[x],
                decreases n - j,
            {
                if self.chains[c].items[j].modified {
                    self.chains[c].items[j].modified = false;
                    synced = synced.wrapping_add(1);
                }
                assert(self.chains@[c as int].items@[j as int]@ == clean_slot(before[c as int][j as int]));
                j = j + 1;
            }
            self.chains[c].lk.release();
            assert(self.chains@[c as int].slots() =~= cleaned(before[c as int]));
            c = c + 1;
        }
        assert(self.view_chains() =~= Seq::new(before.len(), |x: int| cleaned(before[x]))) by {
            assert forall|x: int| 0 <= x < before.len() implies #[trigger] self.view_chains()[x] == cleaned(before[x]) by {
                assert(self.chains@[x].slots() == cleaned(before[x]));
            }
        }
    }

    /// Drops every cached copy of block `k` from chain `k % width`.
    pub fn invalidate(&mut self, k: usize)
        requires
            old(self).wf(),
            old(self).width > 0,
        ensures
            final(self).wf(),
            final(self).width == old(self).width,
            final(self).view_chains() == old(self).view_chains().update(
                (k % old(self).width) as int,
                without_block(old(self).view_chains()[(k % old(self).width) as int], k),
            ),
    {
        let ci = k % self.width;
        let ghost before = self.view_chains();
        self.chains[ci].lk.acquire();
        drop_block(&mut self.chains[ci].items, k);
        self.chains[ci].lk.release();
        assert(self.view_chains() =~= before.update(ci as int, without_block(before[ci as int], k))) by {
            assert(self.view_chains()[ci as int] =~= without_block(before[ci as int], k));
        }
    }

    pub fn total_entries(&self) -> (r: usize)
        requires
            total_slots(self.view_chains()) <= usize::MAX,
        ensures
            r == total_slots(self.view_chains()),
    {
        let ghost v = self.view_chains();
        let mut total: usize = 0;
        let mut i: usize = 0;
        while i < self.chains.len()
            invariant
                v == self.view_chains(),
                i <= v.len(),
                total == total_slots(v.take(i as int)),
                total_slots(v) <= usize::MAX,
            decreases v.len() - i,
        {
            proof {
                assert(v.take(i + 1).drop_last() =~= v.take(i as int));
                lemma_total_slots_prefix(v, i + 1);
            }
            total = total + self.chains[i].items.len();
            i = i + 1;
        }
        assert(v.take(v.len() as int) =~= v);
        total
    }

    pub fn dirty_count(&self) -> (r: usize)
        requires
            total_dirty(self.view_chains()) <= usize::MAX,
        ensures
            r == total_dirty(self.view_chains()),
    {
        let ghost v = self.view_chains();
        let mut count: usize = 0;
        let mut i: usize = 0;
        while i < self.chains.len()
            invariant
                v == self.view_chains(),
                i <= v.len(),
                count == total_dirty(v.take(i as int)),
                total_dirty(v) <= usize::MAX,
            decreases v.len() - i,
        {
            proof {
                assert(v.take(i + 1).drop_last() =~= v.take(i as int));
                lemma_total_dirty_prefix(v, i + 1);
            }
            let ghost s = v[i as int];
            let n = self.chains[i].items.len();
            let mut j: usize = 0;
            let mut here: usize = 0;
            while j < n
                invariant
                    v == self.view_chains(),
                    i < v.len(),
                    s == v[i as int],
                    n == s.len(),
                    j <= n,
                    here == count_dirty(s.take(j as int)),
                    here <= j,
                decreases n - j,
            {
                proof {
                    assert(s.take(j + 1).drop_last() =~= s.take(j as int));
                }
                assert(s[j as int] == self.chains@[i as int].items@[j as int]@);
                if self.chains[i].items[j].modified {
                    here = here + 1;
                }
                j = j + 1;
            }
            assert(s.take(n as int) =~= s);
            count = count + here;
            i = i + 1;
        }
        assert(v.take(v.len() as int) =~= v);
        count
    }

    /// Drops the modified slots that are older than `max_age` at clock
    /// `now` (a slot's age counts from three ticks per block number), and
    /// returns how many were dropped.
    pub fn evict_cold(&mut self, max_age: usize, now: usize) -> (r: usize)
        requires
            old(self).wf(),
            total_slots(old(self).view_chains()) <= usize::MAX,
        ensures
            final(self).wf(),
            final(self).width == old(self).width,
            final(self).view_chains() == Seq::new(
                old(self).view_chains().len(),
                |c: int| warm_slots(old(self).view_chains()[c], now, max_age),
            ),
            r == total_slots(old(self).view_chains()) - total_slots(final(self).view_chains()),
    {
        let ghost before = self.view_chains();
        let ghost after = Seq::new(before.len(), |c: int| warm_slots(before[c], now, max_age));
        let mut evicted: usize = 0;
        let mut c: usize = 0;
        while c < self.chains.len()
            invariant
                self.wf(),
                self.width == old(self).width,
                c <= self.chains@.len(),
                before.len() == self.chains@.len(),
                after.len() == before.len(),
                forall|x: int| 0 <= x < after.len() ==> #[trigger] after[x] == warm_slots(before[x], now, max_age),
                forall|x: int| 0 <= x < c ==> #[trigger] self.chains@[x].slots() == after[x],
                forall|x: int| c <= x < before.len() ==> #[trigger] self.chains@[x].slots() == before[x],
                evicted == total_slots(before.take(c as int)) - total_slots(after.take(c as int)),
                total_slots(after.take(c as int)) <= total_slots(before.take(c as int)),
                total_slots(before) <= usize::MAX,
            decreases self.chains@.len() - c,
        {
            proof {
                assert(before.take(c + 1).drop_last() =~= before.take(c as int));
                assert(after.take(c + 1).drop_last() =~= after.take(c as int));
                lemma_total_slots_prefix(before, c + 1);
                lemma_warm_len(before[c as int], now, max_age);
            }
            assert(self.chains@[c as int].slots() == before[c as int]);
            self.chains[c].lk.acquire();
            assert(self.chains@[c as int].slots() == before[c as int]);
            let gone = retain_warm(&mut self.chains[c].items, now, max_age);
            assert(self.chains@[c as int].slots() == after[c as int]);
            self.chains[c].lk.release();
            evicted = evicted + gone;
            c = c + 1;
        }
        assert(before.take(before.len() as int) =~= before);
        assert(after.take(after.len() as int) =~= after);
        assert(self.view_chains() =~= after) by {
            assert forall|x: int| 0 <= x < after.len() implies #[trigger] self.view_chains()[x] == after[x] by {
                assert(self.chains@[x].slots() == after[x]);
            }
        }
        evicted
    }
}

proof fn lemma_total_slots_prefix(v: Seq<Seq<(usize, Seq<u8>, bool)>>, i: int)
    requires
        0 <= i <= v.len(),
    ensures
        total_slots(v.take(i)) <= total_slots(v),
    decreases v.len() - i,
{
    if i < v.len() {
        lemma_total_slots_prefix(v, i + 1);
        assert(v.take(i + 1).drop_last() =~= v.take(i));
    } else {
        assert(v.take(i) =~= v);
    }
}

proof fn lemma_total_dirty_prefix(v: Seq<Seq<(usize, Seq<u8>, bool)>>, i: int)
    requires
        0 <= i <= v.len(),
    ensures
        total_dirty(v.take(i)) <= total_dirty(v),
    decreases v.len() - i,
{
    if i < v.len() {
        lemma_total_dirty_prefix(v, i + 1);
        assert(v.take(i + 1).drop_last() =~= v.take(i));
    } else {
        assert(v.take(i) =~= v);
    }
}

proof fn lemma_warm_len(s: Seq<(usize, Seq<u8>, bool)>, now: usize, max_age: usize)
    ensures
        warm_slots(s, now, max_age).len() <= s.len(),
    decreases s.len(),
{
    if s.len() > 0 {
        lemma_warm_len(s.drop_last(), now, max_age);
    }
}

/// Removes the slots of block `k`, keeping the others in order.
fn drop_block(items: &mut Vec<CacheSlot>, k: usize)
    ensures
        slot_views(final(items)@) == without_block(slot_views(old(items)@), k),
{
    let ghost s = slot_views(items@);
    let ghost mut p: int = 0;
    let mut i: usize = 0;
    while i < items.len()
        invariant
            s == slot_views(old(items)@),
            0 <= p <= s.len(),
            slot_views(items@) == without_block(s.take(p), k) + s.skip(p),
            i == without_block(s.take(p), k).len(),
        decreases items@.len() - i,
    {
        proof {
            assert(s.take(p + 1).drop_last() =~= s.take(p));
            assert(s.take(p + 1).last() == s[p]);
            assert(slot_views(items@)[i as int] == s[p]);
            assert(s.skip(p) =~= seq![s[p]] + s.skip(p + 1));
        }
        if items[i].id == k {
            let ghost prev = slot_views(items@);
            items.remove(i);
            proof {
                assert(slot_views(items@) =~= prev.remove(i as int));
                assert(without_block(s.take(p + 1), k) == without_block(s.take(p), k));
                assert(slot_views(items@) =~= without_block(s.take(p + 1), k) + s.skip(p + 1));
                p = p + 1;
            }
        } else {
            i = i + 1;
            proof {
                assert(slot_views(items@) =~= without_block(s.take(p + 1), k) + s.skip(p + 1));
                p = p + 1;
            }
        }
    }
    proof {
        assert(p == s.len()) by {
            if p < s.len() {
                assert(slot_views(items@).len() > i);
            }
        }
        assert(s.take(p) =~= s);
        assert(s.skip(p) =~= Seq::<(usize, Seq<u8>, bool)>::empty());
        assert(slot_views(items@) =~= without_block(s, k));
    }
}

/// Keeps the slots that stay warm, in order, and returns how many went.
fn retain_warm(items: &mut Vec<CacheSlot>, now: usize, max_age: usize) -> (r: usize)
    ensures
        slot_views(final(items)@) == warm_slots(slot_views(old(items)@), now, max_age),
        r == old(items)@.len() - final(items)@.len(),
{
    let ghost s = slot_views(items@);
    let ghost mut p: int = 0;
    let before = items.len();
    let mut i: usize = 0;
    while i < items.len()
        invariant
            s == slot_views(old(items)@),
            before == s.len(),
            0 <= p <= s.len(),
            slot_views(items@) == warm_slots(s.take(p), now, max_age) + s.skip(p),
            i == warm_slots(s.take(p), now, max_age).len(),
        decreases items@.len() - i,
    {
        proof {
            assert(s.take(p + 1).drop_last() =~= s.take(p));
            assert(s.take(p + 1).last() == s[p]);
            assert(slot_views(items@)[i as int] == s[p]);
            assert(s.skip(p) =~= seq![s[p]] + s.skip(p + 1));
        }
        let age = now.wrapping_sub(items[i].id.wrapping_mul(3));
        if !items[i].modified || age < max_age {
            i = i + 1;
            proof {
                assert(slot_views(items@) =~= warm_slots(s.take(p + 1), now, max_age) + s.skip(p + 1));
                p = p + 1;
            }
        } else {
            let ghost prev = slot_views(items@);
            items.remove(i);
            proof {
                assert(slot_views(items@) =~= prev.remove(i as int));
                assert(warm_slots(s.take(p + 1), now, max_age) == warm_slots(s.take(p), now, max_age));
                assert(slot_views(items@) =~= warm_slots(s.take(p + 1), now, max_age) + s.skip(p + 1));
                p = p + 1;
            }
        }
    }
    proof {
        assert(p == s.len()) by {
            if p < s.len() {
                assert(slot_views(items@).len() > i);
            }
        }
        assert(s.take(p) =~= s);
        assert(s.skip(p) =~= Seq::<(usize, Seq<u8>, bool)>::empty());
        assert(slot_views(items@) =~= warm_slots(s, now, max_age));
        lemma_warm_len(s, now, max_age);
    }
    before - items.len()
}

} // verus!
