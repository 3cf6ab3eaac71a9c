//! A keyed wait queue: waiters (known by id) sleep on a key with flags and
//! are woken by key; parking and unparking are the caller's part.
use vstd::prelude::*;
use std::collections::VecDeque;

verus! {

/// A sleeping waiter: its key, its id and its flags.
pub type WaitEntry = (usize, usize, u32);

pub struct WaitQueue {
    pub inner: VecDeque<WaitEntry>,
    pub woken: Vec<usize>,
    pub wake_count: usize,
}

/// `a + b`, wrapping at the top of the word.
pub open spec fn wrap_plus(a: usize, b: usize) -> usize {
    if a + b > usize::MAX { (a + b - usize::MAX - 1) as usize } else { (a + b) as usize }
}

fn add_wrapping(a: usize, b: usize) -> (r: usize)
    ensures
        r == wrap_plus(a, b),
{
    if b > usize::MAX - a { b - (usize::MAX - a) - 1 } else { a + b }
}

/// The entries not on `key`, in order.
pub open spec fn wq_keep(s: Seq<WaitEntry>, key: usize) -> Seq<WaitEntry>
    decreases s.len(),
{
    if s.len() == 0 {
        s
    } else {
        let r = wq_keep(s.drop_last(), key);
        if s.last().0 == key { r } else { r.push(s.last()) }
    }
}

/// The ids of the entries on `key`, in order.
pub open spec fn wq_on(s: Seq<WaitEntry>, key: usize) -> Seq<usize>
    decreases s.len(),
{
    if s.len() == 0 {
        Seq::empty()
    } else {
        let r = wq_on(s.drop_last(), key);
        if s.last().0 == key { r.push(s.last().1) } else { r }
    }
}

/// The entries of `s` left and the ids woken when entry `i` is woken
/// exactly where `picks[i]` holds, both in order.
pub open spec fn wq_split(s: Seq<WaitEntry>, picks: Seq<bool>) -> (Seq<WaitEntry>, Seq<usize>)
    decreases s.len(),
{
    if s.len() == 0 {
        (s, Seq::empty())
    } else {
        let (k, w) = wq_split(s.drop_last(), picks);
        if picks[s.len() - 1] { (k, w.push(s.last().1)) } else { (k.push(s.last()), w) }
    }
}

/// The first place of an entry on `key`, or -1.
pub open spec fn first_on(s: Seq<WaitEntry>, key: usize) -> int
    decreases s.len(),
{
    if s.len() == 0 {
        -1
    } else {
        let r = first_on(s.drop_last(), key);
        if r >= 0 { r } else if s.last().0 == key { s.len() - 1 } else { -1 }
    }
}

/// `e` placed after every entry of sorted `s` whose flags are not above its own.
pub open spec fn ins_by_flags(s: Seq<WaitEntry>, e: WaitEntry) -> Seq<WaitEntry>
    decreases s.len(),
{
    if s.len() == 0 || s.last().2 <= e.2 {
        s.push(e)
    } else {
        ins_by_flags(s.drop_last(), e).push(s.last())
    }
}

/// `s` sorted by flags, keeping the order of entries with equal flags.
pub open spec fn sort_by_flags(s: Seq<WaitEntry>) -> Seq<WaitEntry>
    decreases s.len(),
{
    if s.len() == 0 { s } else { ins_by_flags(sort_by_flags(s.drop_last()), s.last()) }
}

proof fn lemma_first_on(s: Seq<WaitEntry>, key: usize, i: int)
    requires
        0 <= i < s.len(),
        s[i].0 == key,
        forall|j: int| 0 <= j < i ==> s[j].0 != key,
    ensures
        first_on(s, key) == i,
    decreases s.len(),
{
    if i < s.len() - 1 {
        lemma_first_on(s.drop_last(), key, i);
    } else {
        lemma_first_none(s.drop_last(), key);
    }
}

proof fn lemma_first_none(s: Seq<WaitEntry>, key: usize)
    requires
        forall|j: int| 0 <= j < s.len() ==> s[j].0 != key,
    ensures
        first_on(s, key) == -1,
    decreases s.len(),
{
    if s.len() > 0 {
        lemma_first_none(s.drop_last(), key);
    }
}

proof fn lemma_wq_on_len(s: Seq<WaitEntry>, key: usize)
    ensures
        wq_on(s, key).len() <= s.len(),
        wq_on(s, key).len() == 0 <==> first_on(s, key) == -1,
    decreases s.len(),
{
    if s.len() > 0 {
        lemma_wq_on_len(s.drop_last(), key);
    }
}

proof fn lemma_ins_at(s: Seq<WaitEntry>, e: WaitEntry, p: int)
    requires
        0 <= p <= s.len(),
        p == 0 || s[p - 1].2 <= e.2,
        forall|j: int| p <= j < s.len() ==> s[j].2 > e.2,
    ensures
        ins_by_flags(s, e) == s.insert(p, e),
    decreases s.len(),
{
    if p == s.len() {
        assert(s.push(e) =~= s.insert(p, e));
    } else {
        let d = s.drop_last();
        lemma_ins_at(d, e, p);
        assert(d.insert(p, e).push(s.last()) =~= s.insert(p, e));
    }
}

/// Splitting depends only on the picks for the entries there are.
proof fn lemma_wq_split_prefix(s: Seq<WaitEntry>, p: Seq<bool>, q: Seq<bool>)
    requires
        p.len() >= s.len(),
        forall|j: int| 0 <= j < s.len() ==> p[j] == q[j],
    ensures
        wq_split(s, p) == wq_split(s, q),
    decreases s.len(),
{
    if s.len() > 0 {
        lemma_wq_split_prefix(s.drop_last(), p, q);
    }
}

impl WaitQueue {
    pub fn new() -> (r: Self)
        ensures
            r.inner@.len() == 0,
            r.woken@.len() == 0,
            r.wake_count == 0,
    {
        WaitQueue { inner: VecDeque::new(), woken: Vec::new(), wake_count: 0 }
    }

    /// Queues `waiter` on `key`; the caller then parks it.
    pub fn sleep(&mut self, key: usize, flags: u32, waiter: usize)
        ensures
            final(self).inner@ == old(self).inner@.push((key, waiter, flags)),
            final(self).woken == old(self).woken,
            final(self).wake_count == old(self).wake_count,
    {
        self.inner.push_back((key, waiter, flags));
    }

    /// Queues `waiter` on `key` for a bounded sleep; once the time is up the
    /// caller asks `timeout_expired`.
    pub fn sleep_timeout(&mut self, key: usize, flags: u32, waiter: usize)
        ensures
            final(self).inner@ == old(self).inner@.push((key, waiter, flags)),
            final(self).woken == old(self).woken,
            final(self).wake_count == old(self).wake_count,
    {
        self.inner.push_back((key, waiter, flags));
    }

    /// After a bounded sleep on `key`: drops every entry still on `key`;
    /// true if there was one.
    pub fn timeout_expired(&mut self, key: usize) -> (r: bool)
        ensures
            final(self).inner@ == wq_keep(old(self).inner@, key),
            r == (wq_on(old(self).inner@, key).len() > 0),
            final(self).woken == old(self).woken,
            final(self).wake_count == old(self).wake_count,
    {
        let (kept, ids) = self.split_on(key);
        self.inner = kept;
        ids.len() > 0
    }

    fn split_on(&self, key: usize) -> (r: (VecDeque<WaitEntry>, Vec<usize>))
        ensures
            r.0@ == wq_keep(self.inner@, key),
            r.1@ == wq_on(self.inner@, key),
    {
        let mut kept: VecDeque<WaitEntry> = VecDeque::new();
        let mut ids: Vec<usize> = Vec::new();
        let mut i: usize = 0;
        while i < self.inner.len()
            invariant
                i <= self.inner@.len(),
                kept@ == wq_keep(self.inner@.take(i as int), key),
                ids@ == wq_on(self.inner@.take(i as int), key),
            decreases self.inner@.len() - i,
        {
            proof {
                assert(self.inner@.take(i as int + 1).drop_last() =~= self.inner@.take(i as int));
            }
            let e = self.inner[i];
            if e.0 == key {
                ids.push(e.1);
            } else {
                kept.push_back(e);
            }
            i = i + 1;
        }
        assert(self.inner@.take(self.inner@.len() as int) =~= self.inner@);
        (kept, ids)
    }

    /// Wakes the oldest waiter on `key`; false if there is none.
    pub fn wake_one(&mut self, key: usize) -> (r: bool)
        ensures
            r == (first_on(old(self).inner@, key) >= 0),
            r ==> {
                let p = first_on(old(self).inner@, key);
                &&& final(self).inner@ == old(self).inner@.remove(p)
                &&& final(self).woken@ == old(self).woken@.push(old(self).inner@[p].1)
                &&& final(self).wake_count == wrap_plus(old(self).wake_count, 1)
            },
            !r ==> *final(self) == *old(self),
    {
        let mut i: usize = 0;
        while i < self.inner.len()
            invariant
                i <= self.inner@.len(),
                self.inner@ == old(self).inner@,
                self.woken@ == old(self).woken@,
                self.wake_count == old(self).wake_count,
                *self == *old(self),
                forall|j: int| 0 <= j < i ==> self.inner@[j].0 != key,
            decreases self.inner@.len() - i,
        {
            if self.inner[i].0 == key {
                proof {
                    lemma_first_on(self.inner@, key, i as int);
                }
                let e = self.inner.remove(i).unwrap();
                self.woken.push(e.1);
                self.wake_count = add_wrapping(self.wake_count, 1);
                return true;
            }
            i = i + 1;
        }
        proof {
            lemma_first_none(self.inner@, key);
        }
        false
    }

    /// Wakes every waiter on `key`, oldest first; returns how many.
    pub fn wake_all(&mut self, key: usize) -> (r: usize)
        ensures
            final(self).inner@ == wq_keep(old(self).inner@, key),
            final(self).woken@ == old(self).woken@ + wq_on(old(self).inner@, key),
            r == wq_on(old(self).inner@, key).len(),
            final(self).wake_count == wrap_plus(old(self).wake_count, r),
    {
        let (kept, ids) = self.split_on(key);
        proof {
            lemma_wq_on_len(old(self).inner@, key);
        }
        let count = ids.len();
        self.inner = kept;
        let mut i: usize = 0;
        while i < ids.len()
            invariant
                i <= ids@.len(),
                self.woken@ == old(self).woken@ + ids@.take(i as int),
                self.inner@ == wq_keep(old(self).inner@, key),
                self.wake_count == old(self).wake_count,
            decreases ids@.len() - i,
        {
            self.woken.push(ids[i]);
            i = i + 1;
            assert(self.woken@ =~= old(self).woken@ + ids@.take(i as int));
        }
        assert(ids@.take(ids@.len() as int) =~= ids@);
        self.wake_count = add_wrapping(self.wake_count, count);
        count
    }

    /// Wakes every waiter whose key and flags `pred` accepts, oldest
    /// first; returns how many. `pred` is asked once about each waiter, in
    /// order.
    pub fn wake_filtered<F: Fn(usize, u32) -> bool>(&mut self, pred: F) -> (r: usize)
        requires
            forall|k: usize, f: u32| #[trigger] pred.requires((k, f)),
        ensures
            exists|picks: Seq<bool>| {
                &&& picks.len() == old(self).inner@.len()
                &&& forall|i: int| 0 <= i < picks.len() ==> #[trigger] pred.ensures(
                    (old(self).inner@[i].0, old(self).inner@[i].2),
                    picks[i],
                )
                &&& final(self).inner@ == wq_split(old(self).inner@, picks).0
                &&& final(self).woken@ == old(self).woken@ + wq_split(old(self).inner@, picks).1
                &&& r == wq_split(old(self).inner@, picks).1.len()
            },
            final(self).wake_count == wrap_plus(old(self).wake_count, r),
    {
        let ghost s = self.inner@;
        let ghost mut picks: Seq<bool> = Seq::empty();
        let mut kept: VecDeque<WaitEntry> = VecDeque::new();
        let mut count: usize = 0;
        let mut i: usize = 0;
        while i < self.inner.len()
            invariant
                s == self.inner@,
                s == old(self).inner@,
                self.woken@ == old(self).woken@ + wq_split(s.take(i as int), picks).1,
                self.wake_count == old(self).wake_count,
                i <= s.len(),
                picks.len() == i,
                count == wq_split(s.take(i as int), picks).1.len(),
                count <= i,
                kept@ == wq_split(s.take(i as int), picks).0,
                forall|k: usize, f: u32| #[trigger] pred.requires((k, f)),
                forall|j: int| 0 <= j < i ==> #[trigger] pred.ensures((s[j].0, s[j].2), picks[j]),
            decreases s.len() - i,
        {
            let e = self.inner[i];
            let hit = pred(e.0, e.2);
            proof {
                assert(s.take(i as int + 1).drop_last() =~= s.take(i as int));
                lemma_wq_split_prefix(s.take(i as int), picks, picks.push(hit));
                picks = picks.push(hit);
            }
            if hit {
                self.woken.push(e.1);
                count = count + 1;
            } else {
                kept.push_back(e);
            }
            i = i + 1;
        }
        proof {
            assert(s.take(s.len() as int) =~= s);
        }
        self.inner = kept;
        self.wake_count = add_wrapping(self.wake_count, count);
        count
    }

    pub fn pending_count(&self) -> (r: usize)
        ensures
            r == self.inner@.len(),
    {
        self.inner.len()
    }

    pub fn total_wakes(&self) -> (r: usize)
        ensures
            r == self.wake_count,
    {
        self.wake_count
    }

    /// Whether anyone sleeps on `key`.
    pub fn has_waiters_for(&self, key: usize) -> (r: bool)
        ensures
            r == (first_on(self.inner@, key) >= 0),
    {
        let mut i: usize = 0;
        while i < self.inner.len()
            invariant
                i <= self.inner@.len(),
                forall|j: int| 0 <= j < i ==> self.inner@[j].0 != key,
            decreases self.inner@.len() - i,
        {
            if self.inner[i].0 == key {
                proof {
                    lemma_first_on(self.inner@, key, i as int);
                }
                return true;
            }
            i = i + 1;
        }
        proof {
            lemma_first_none(self.inner@, key);
        }
        false
    }

    /// Orders the sleepers by their flags, lowest first, keeping the order of
    /// those with equal flags.
    pub fn reorder_by_priority(&mut self)
        ensures
            final(self).inner@ == sort_by_flags(old(self).inner@),
            final(self).woken == old(self).woken,
            final(self).wake_count == old(self).wake_count,
    {
        let mut out: VecDeque<WaitEntry> = VecDeque::new();
        let mut i: usize = 0;
        while i < self.inner.len()
            invariant
                i <= self.inner@.len(),
                self.inner@ == old(self).inner@,
                self.woken == old(self).woken,
                self.wake_count == old(self).wake_count,
                out@ == sort_by_flags(self.inner@.take(i as int)),
            decreases self.inner@.len() - i,
        {
            let e = self.inner[i];
            proof {
                assert(self.inner@.take(i as int + 1).drop_last() =~= self.inner@.take(i as int));
            }
            let mut p: usize = out.len();
            while p > 0 && out[p - 1].2 > e.2
                invariant
                    p <= out@.len(),
                    forall|j: int| p <= j < out@.len() ==> out@[j].2 > e.2,
                decreases p,
            {
                p = p - 1;
            }
            proof {
                lemma_ins_at(out@, e, p as int);
            }
            out.insert(p, e);
            i = i + 1;
        }
        assert(self.inner@.take(self.inner@.len() as int) =~= self.inner@);
        self.inner = out;
    }
}

} // verus!
