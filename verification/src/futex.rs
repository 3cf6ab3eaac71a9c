//! Futex wait queues. A waiter is known by an id; waking it moves the id to
//! a list that the scheduler drains, and parking it is the caller's part.
use vstd::prelude::*;
use std::collections::VecDeque;

verus! {

/// Waiters (address, waiter id) in arrival order, and the ids woken and
/// not yet collected.
pub struct FutexBucket {
    pub waiters: VecDeque<(usize, usize)>,
    pub woken: Vec<usize>,
}

/// What waking up to `n` waiters on `addr` leaves: the waiters kept, the
/// ids woken, in order.
pub open spec fn wake_spec(s: Seq<(usize, usize)>, addr: usize, n: nat) -> (Seq<(usize, usize)>, Seq<usize>)
    decreases s.len(),
{
    if s.len() == 0 {
        (s, Seq::empty())
    } else {
        let h = s[0];
        if h.0 == addr && n > 0 {
            let (k, w) = wake_spec(s.drop_first(), addr, (n - 1) as nat);
            (k, seq![h.1] + w)
        } else {
            let (k, w) = wake_spec(s.drop_first(), addr, n);
            (seq![h] + k, w)
        }
    }
}

/// What requeueing leaves: of the waiters on `src`, the first `wake_n`
/// (less `wk` already woken) are woken and the next `move_n` (less `mv`
/// already moved) move to `dst`. Gives the waiters kept, the ids woken and
/// how many were woken in all.
pub open spec fn requeue_spec(
    s: Seq<(usize, usize)>,
    src: usize,
    dst: usize,
    wake_n: nat,
    move_n: nat,
    wk: nat,
    mv: nat,
) -> (Seq<(usize, usize)>, Seq<usize>, nat)
    decreases s.len(),
{
    if s.len() == 0 {
        (s, Seq::empty(), wk)
    } else {
        let h = s[0];
        if h.0 == src && wk < wake_n {
            let (k, w, n) = requeue_spec(s.drop_first(), src, dst, wake_n, move_n, wk + 1, mv);
            (k, seq![h.1] + w, n)
        } else if h.0 == src && mv < move_n {
            let (k, w, n) = requeue_spec(s.drop_first(), src, dst, wake_n, move_n, wk, mv + 1);
            (seq![(dst, h.1)] + k, w, n)
        } else {
            let (k, w, n) = requeue_spec(s.drop_first(), src, dst, wake_n, move_n, wk, mv);
            (seq![h] + k, w, n)
        }
    }
}

/// How many of `s` wait on `addr`.
pub open spec fn waiting_on(s: Seq<(usize, usize)>, addr: usize) -> nat
    decreases s.len(),
{
    if s.len() == 0 {
        0
    } else {
        waiting_on(s.drop_first(), addr) + if s[0].0 == addr { 1nat } else { 0nat }
    }
}

/// The ids of the waiters of `s` on `addr`, in order.
pub open spec fn ids_on(s: Seq<(usize, usize)>, addr: usize) -> Seq<usize>
    decreases s.len(),
{
    if s.len() == 0 {
        Seq::empty()
    } else if s[0].0 == addr {
        seq![s[0].1] + ids_on(s.drop_first(), addr)
    } else {
        ids_on(s.drop_first(), addr)
    }
}

proof fn lemma_ids_on_len(s: Seq<(usize, usize)>, addr: usize)
    ensures
        ids_on(s, addr).len() == waiting_on(s, addr),
    decreases s.len(),
{
    if s.len() > 0 {
        lemma_ids_on_len(s.drop_first(), addr);
    }
}

/// The smaller of `a` and `b`.
pub open spec fn nat_min(a: nat, b: nat) -> nat {
    if a < b { a } else { b }
}

proof fn lemma_requeue_counts(s: Seq<(usize, usize)>, src: usize, dst: usize, wake_n: nat, move_n: nat, wk: nat, mv: nat)
    requires
        wk <= wake_n,
        mv <= move_n,
        src != dst,
    ensures
        ({
            let (k, w, n) = requeue_spec(s, src, dst, wake_n, move_n, wk, mv);
            let c = waiting_on(s, src);
            let woken = nat_min(c, (wake_n - wk) as nat);
            let moved = nat_min((c - woken) as nat, (move_n - mv) as nat);
            &&& w.len() == woken
            &&& w == ids_on(s, src).take(woken as int)
            &&& n == wk + woken
            &&& k.len() == s.len() - woken
            &&& waiting_on(k, src) == c - woken - moved
            &&& waiting_on(k, dst) == waiting_on(s, dst) + moved
            &&& forall|a: usize| a != src && a != dst ==> #[trigger] waiting_on(k, a) == waiting_on(s, a)
        }),
    decreases s.len(),
{
    if s.len() > 0 {
        let h = s[0];
        let t = s.drop_first();
        if h.0 == src && wk < wake_n {
            lemma_requeue_counts(t, src, dst, wake_n, move_n, wk + 1, mv);
            let (k, w, n) = requeue_spec(t, src, dst, wake_n, move_n, wk + 1, mv);
            let woken = nat_min(waiting_on(t, src), (wake_n - (wk + 1)) as nat);
            lemma_ids_on_len(t, src);
            assert(ids_on(s, src) == seq![h.1] + ids_on(t, src));
            assert(seq![h.1] + ids_on(t, src).take(woken as int) =~= ids_on(s, src).take(woken as int + 1));
            assert forall|a: usize| a != src && a != dst implies #[trigger] waiting_on(k, a) == waiting_on(s, a) by {
                assert(waiting_on(s, a) == waiting_on(t, a));
            }
        } else if h.0 == src && mv < move_n {
            lemma_requeue_counts(t, src, dst, wake_n, move_n, wk, mv + 1);
            let (k, w, n) = requeue_spec(t, src, dst, wake_n, move_n, wk, mv + 1);
            assert(w.len() == 0);
            assert(w =~= ids_on(s, src).take(0));
            let k2 = seq![(dst, h.1)] + k;
            assert(k2.drop_first() =~= k);
            assert forall|a: usize| a != src && a != dst implies #[trigger] waiting_on(k2, a) == waiting_on(s, a) by {
                assert(waiting_on(s, a) == waiting_on(t, a));
                assert(waiting_on(k2, a) == waiting_on(k, a));
            }
        } else {
            lemma_requeue_counts(t, src, dst, wake_n, move_n, wk, mv);
            let (k, w, n) = requeue_spec(t, src, dst, wake_n, move_n, wk, mv);
            let k2 = seq![h] + k;
            assert(k2.drop_first() =~= k);
            assert forall|a: usize| a != src && a != dst implies #[trigger] waiting_on(k2, a) == waiting_on(s, a) by {
                assert(waiting_on(s, a) == waiting_on(t, a) + if h.0 == a { 1nat } else { 0nat });
                assert(waiting_on(k2, a) == waiting_on(k, a) + if h.0 == a { 1nat } else { 0nat });
            }
        }
    }
}

/// A requeue from `src` to another address `dst` wakes the first
/// `wake_n` waiters on `src` (or all, when fewer wait), moves the next
/// `move_n` of them (or all that are left) to wait on `dst`, and leaves
/// every other waiter where it was: `dst` gains exactly the moved ones and
/// `src` loses the woken and the moved ones.
pub proof fn law_requeue_moves(s: Seq<(usize, usize)>, src: usize, dst: usize, wake_n: nat, move_n: nat)
    requires
        src != dst,
    ensures
        ({
            let (k, w, n) = requeue_spec(s, src, dst, wake_n, move_n, 0, 0);
            let c = waiting_on(s, src);
            let woken = nat_min(c, wake_n);
            let moved = nat_min((c - woken) as nat, move_n);
            &&& w.len() == woken
            &&& w == ids_on(s, src).take(woken as int)
            &&& n == woken
            &&& k.len() == s.len() - woken
            &&& waiting_on(k, src) == c - woken - moved
            &&& waiting_on(k, dst) == waiting_on(s, dst) + moved
            &&& forall|a: usize| a != src && a != dst ==> #[trigger] waiting_on(k, a) == waiting_on(s, a)
        }),
{
    lemma_requeue_counts(s, src, dst, wake_n, move_n, 0, 0);
}

/// A waiter queued on an address that nobody else waits on is exactly
/// what a wake of at least one on that address wakes, and the others stay
/// queued as they were.
pub proof fn law_wait_then_wake(s: Seq<(usize, usize)>, addr: usize, waiter: usize, n: nat)
    requires
        n > 0,
        waiting_on(s, addr) == 0,
    ensures
        wake_spec(s.push((addr, waiter)), addr, n) == (s, seq![waiter]),
    decreases s.len(),
{
    let t = s.push((addr, waiter));
    if s.len() == 0 {
        assert(t.drop_first() =~= Seq::<(usize, usize)>::empty());
        assert(t[0] == (addr, waiter));
        assert(wake_spec(t.drop_first(), addr, (n - 1) as nat) == (Seq::<(usize, usize)>::empty(), Seq::<usize>::empty()));
        assert(seq![waiter] + Seq::<usize>::empty() =~= seq![waiter]);
        assert(wake_spec(t, addr, n) == (Seq::<(usize, usize)>::empty(), seq![waiter] + Seq::<usize>::empty()));
        assert(s =~= Seq::<(usize, usize)>::empty());
    } else {
        assert(s[0].0 != addr);
        assert(waiting_on(s.drop_first(), addr) == 0);
        assert(t.drop_first() =~= s.drop_first().push((addr, waiter)));
        assert(t[0] == s[0]);
        law_wait_then_wake(s.drop_first(), addr, waiter, n);
        assert(seq![s[0]] + s.drop_first() =~= s);
    }
}

proof fn lemma_wake_bound(s: Seq<(usize, usize)>, addr: usize, n: nat)
    ensures
        wake_spec(s, addr, n).1.len() <= s.len(),
        wake_spec(s, addr, n).1.len() <= n,
    decreases s.len(),
{
    if s.len() > 0 {
        if s[0].0 == addr && n > 0 {
            lemma_wake_bound(s.drop_first(), addr, (n - 1) as nat);
        } else {
            lemma_wake_bound(s.drop_first(), addr, n);
        }
    }
}

proof fn lemma_requeue_bound(s: Seq<(usize, usize)>, src: usize, dst: usize, wake_n: nat, move_n: nat, wk: nat, mv: nat)
    ensures
        requeue_spec(s, src, dst, wake_n, move_n, wk, mv).2 <= wk + s.len(),
    decreases s.len(),
{
    if s.len() > 0 {
        let h = s[0];
        if h.0 == src && wk < wake_n {
            lemma_requeue_bound(s.drop_first(), src, dst, wake_n, move_n, wk + 1, mv);
        } else if h.0 == src && mv < move_n {
            lemma_requeue_bound(s.drop_first(), src, dst, wake_n, move_n, wk, mv + 1);
        } else {
            lemma_requeue_bound(s.drop_first(), src, dst, wake_n, move_n, wk, mv);
        }
    }
}

fn do_wake(s: &VecDeque<(usize, usize)>, addr: usize, count: usize) -> (r: (VecDeque<(usize, usize)>, Vec<usize>))
    ensures
        (r.0@, r.1@) == wake_spec(s@, addr, count as nat),
{
    let mut kept: VecDeque<(usize, usize)> = VecDeque::new();
    let mut woken: Vec<usize> = Vec::new();
    let mut left: usize = count;
    let mut i: usize = 0;
    assert(s@.skip(0) =~= s@);
    while i < s.len()
        invariant
            i <= s@.len(),
            left <= count,
            ({
                let (k, w) = wake_spec(s@.skip(i as int), addr, left as nat);
                wake_spec(s@, addr, count as nat) == (kept@ + k, woken@ + w)
            }),
        decreases s@.len() - i,
    {
        let h = s[i];
        let ghost t = s@.skip(i as int);
        assert(t[0] == h);
        assert(t.drop_first() =~= s@.skip(i as int + 1));
        if h.0 == addr && left > 0 {
            proof {
                let (k, w) = wake_spec(s@.skip(i as int + 1), addr, (left - 1) as nat);
                assert(woken@ + (seq![h.1] + w) =~= woken@.push(h.1) + w);
            }
            woken.push(h.1);
            left = left - 1;
        } else {
            proof {
                let (k, w) = wake_spec(s@.skip(i as int + 1), addr, left as nat);
                assert(kept@ + (seq![h] + k) =~= kept@.push(h) + k);
            }
            kept.push_back(h);
        }
        i = i + 1;
    }
    proof {
        let t = s@.skip(i as int);
        assert(t.len() == 0);
        assert(kept@ + t =~= kept@);
        assert(woken@ + Seq::<usize>::empty() =~= woken@);
    }
    (kept, woken)
}

fn do_requeue(s: &VecDeque<(usize, usize)>, src: usize, dst: usize, wake_n: usize, move_n: usize) -> (r: (VecDeque<(usize, usize)>, Vec<usize>, usize))
    ensures
        (r.0@, r.1@, r.2 as nat) == requeue_spec(s@, src, dst, wake_n as nat, move_n as nat, 0, 0),
{
    let mut kept: VecDeque<(usize, usize)> = VecDeque::new();
    let mut woken: Vec<usize> = Vec::new();
    let mut wk: usize = 0;
    let mut mv: usize = 0;
    let mut i: usize = 0;
    assert(s@.skip(0) =~= s@);
    while i < s.len()
        invariant
            i <= s@.len(),
            wk <= i,
            mv <= i,
            ({
                let (k, w, n) = requeue_spec(s@.skip(i as int), src, dst, wake_n as nat, move_n as nat, wk as nat, mv as nat);
                requeue_spec(s@, src, dst, wake_n as nat, move_n as nat, 0, 0) == (kept@ + k, woken@ + w, n)
            }),
        decreases s@.len() - i,
    {
        let h = s[i];
        let ghost t = s@.skip(i as int);
        assert(t[0] == h);
        assert(t.drop_first() =~= s@.skip(i as int + 1));
        if h.0 == src && wk < wake_n {
            proof {
                let (k, w, n) = requeue_spec(s@.skip(i as int + 1), src, dst, wake_n as nat, move_n as nat, wk as nat + 1, mv as nat);
                assert(woken@ + (seq![h.1] + w) =~= woken@.push(h.1) + w);
            }
            woken.push(h.1);
            wk = wk + 1;
        } else if h.0 == src && mv < move_n {
            proof {
                let (k, w, n) = requeue_spec(s@.skip(i as int + 1), src, dst, wake_n as nat, move_n as nat, wk as nat, mv as nat + 1);
                assert(kept@ + (seq![(dst, h.1)] + k) =~= kept@.push((dst, h.1)) + k);
            }
            kept.push_back((dst, h.1));
            mv = mv + 1;
        } else {
            proof {
                let (k, w, n) = requeue_spec(s@.skip(i as int + 1), src, dst, wake_n as nat, move_n as nat, wk as nat, mv as nat);
                assert(kept@ + (seq![h] + k) =~= kept@.push(h) + k);
            }
            kept.push_back(h);
        }
        i = i + 1;
    }
    proof {
        assert(kept@ + s@.skip(i as int) =~= kept@);
        assert(woken@ + Seq::<usize>::empty() =~= woken@);
    }
    (kept, woken, wk)
}

fn count_on(s: &VecDeque<(usize, usize)>, addr: usize) -> (r: usize)
    ensures
        r == waiting_on(s@, addr),
{
    let mut n: usize = 0;
    let len = s.len();
    let mut i: usize = len;
    while i > 0
        invariant
            len == s@.len(),
            i <= s@.len(),
            n <= s@.len() - i,
            n == waiting_on(s@.skip(i as int), addr),
        decreases i,
    {
        i = i - 1;
        assert(s@.skip(i as int).drop_first() =~= s@.skip(i as int + 1));
        if s[i].0 == addr {
            n = n + 1;
        }
    }
    assert(s@.skip(0) =~= s@);
    n
}

fn copy_tail(dst: &mut VecDeque<(usize, usize)>, src: &VecDeque<(usize, usize)>, from: usize)
    requires
        from <= src@.len(),
    ensures
        final(dst)@ == old(dst)@ + src@.skip(from as int),
{
    let mut j: usize = from;
    while j < src.len()
        invariant
            from <= j <= src@.len(),
            dst@ == old(dst)@ + src@.subrange(from as int, j as int),
        decreases src@.len() - j,
    {
        dst.push_back(src[j]);
        j = j + 1;
        assert(dst@ =~= old(dst)@ + src@.subrange(from as int, j as int));
    }
    assert(src@.subrange(from as int, src@.len() as int) =~= src@.skip(from as int));
}

fn append_ids(dst: &mut Vec<usize>, src: Vec<usize>)
    ensures
        final(dst)@ == old(dst)@ + src@,
{
    let mut i: usize = 0;
    while i < src.len()
        invariant
            i <= src@.len(),
            dst@ == old(dst)@ + src@.take(i as int),
        decreases src@.len() - i,
    {
        dst.push(src[i]);
        i = i + 1;
        assert(dst@ =~= old(dst)@ + src@.take(i as int));
    }
    assert(src@.take(src@.len() as int) =~= src@);
}

impl FutexBucket {
    pub fn new() -> (r: Self)
        ensures
            r.waiters@.len() == 0,
            r.woken@.len() == 0,
    {
        FutexBucket { waiters: VecDeque::new(), woken: Vec::new() }
    }

    /// Queues `waiter` on `addr` while the futex word still holds
    /// `expected`; fails at once if it has changed. The caller then parks
    /// the waiter and asks `finish_wait` when it runs again.
    pub fn wait(&mut self, addr: usize, expected: u32, val: u32, waiter: usize) -> (r: Result<(), &'static str>)
        ensures
            val != expected ==> r == Err::<(), &'static str>("changed") && final(self).waiters@ == old(self).waiters@,
            val == expected ==> r == Ok::<(), &'static str>(()) && final(self).waiters@ == old(self).waiters@.push((addr, waiter)),
            final(self).woken@ == old(self).woken@,
    {
        if val != expected {
            return Err("changed");
        }
        self.waiters.push_back((addr, waiter));
        Ok(())
    }

    /// After a park: `Ok` if `waiter` was woken (and collects that), a
    /// timeout otherwise.
    pub fn finish_wait(&mut self, waiter: usize) -> (r: Result<(), &'static str>)
        ensures
            old(self).woken@.contains(waiter) ==> r == Ok::<(), &'static str>(())
                && final(self).woken@ == crate::pagecache::without(old(self).woken@, waiter),
            !old(self).woken@.contains(waiter) ==> r == Err::<(), &'static str>("timeout")
                && final(self).woken@ == old(self).woken@,
            final(self).waiters@ == old(self).waiters@,
    {
        let mut i: usize = 0;
        while i < self.woken.len()
            invariant
                i <= self.woken@.len(),
                self.woken@ == old(self).woken@,
                self.waiters@ == old(self).waiters@,
                forall|j: int| 0 <= j < i ==> self.woken@[j] != waiter,
            decreases self.woken@.len() - i,
        {
            if self.woken[i] == waiter {
                assert(self.woken@.contains(waiter));
                let w = crate::pagecache::retain_without(&self.woken, waiter);
                self.woken = w;
                return Ok(());
            }
            i = i + 1;
        }
        Err("timeout")
    }

    /// Wakes up to `count` waiters on `addr`, oldest first; returns how many.
    pub fn wake(&mut self, addr: usize, count: usize) -> (r: usize)
        ensures
            ({
                let (k, w) = wake_spec(old(self).waiters@, addr, count as nat);
                &&& final(self).waiters@ == k
                &&& final(self).woken@ == old(self).woken@ + w
                &&& r == w.len()
            }),
    {
        let (kept, woken) = do_wake(&self.waiters, addr, count);
        proof {
            lemma_wake_bound(old(self).waiters@, addr, count as nat);
        }
        let n = woken.len();
        self.waiters = kept;
        append_ids(&mut self.woken, woken);
        n
    }

    /// Wakes up to `wake_n` waiters on `src` and moves up to `move_n` more to
    /// `dst`; returns how many were woken.
    pub fn requeue(&mut self, src: usize, dst: usize, wake_n: usize, move_n: usize) -> (r: usize)
        ensures
            ({
                let (k, w, n) = requeue_spec(old(self).waiters@, src, dst, wake_n as nat, move_n as nat, 0, 0);
                &&& final(self).waiters@ == k
                &&& final(self).woken@ == old(self).woken@ + w
                &&& r == n
            }),
    {
        let (kept, woken, wk) = do_requeue(&self.waiters, src, dst, wake_n, move_n);
        self.waiters = kept;
        append_ids(&mut self.woken, woken);
        wk
    }

    /// How many wait on `addr`.
    pub fn pending_at(&self, addr: usize) -> (r: usize)
        ensures
            r == waiting_on(self.waiters@, addr),
    {
        count_on(&self.waiters, addr)
    }
}

/// One global futex queue.
pub struct FutexTable {
    pub table: VecDeque<(usize, usize)>,
    pub woken: Vec<usize>,
}

/// What the table's wake leaves: it counts the waiters on `addr` in order,
/// waking each while the count stays below `limit` and keeping the rest;
/// it stops once the count passes `limit`. Gives the waiters kept, the ids
/// woken and the final count.
pub open spec fn ftx_wake_spec(s: Seq<(usize, usize)>, addr: usize, limit: nat, wk: nat) -> (Seq<(usize, usize)>, Seq<usize>, nat)
    decreases s.len(),
{
    if s.len() == 0 || wk > limit {
        (s, Seq::empty(), wk)
    } else {
        let h = s[0];
        if h.0 == addr && wk + 1 < limit {
            let (k, w, n) = ftx_wake_spec(s.drop_first(), addr, limit, wk + 1);
            (k, seq![h.1] + w, n)
        } else if h.0 == addr {
            let (k, w, n) = ftx_wake_spec(s.drop_first(), addr, limit, wk + 1);
            (seq![h] + k, w, n)
        } else {
            let (k, w, n) = ftx_wake_spec(s.drop_first(), addr, limit, wk);
            (seq![h] + k, w, n)
        }
    }
}

impl FutexTable {
    pub fn new() -> (r: Self)
        ensures
            r.table@.len() == 0,
            r.woken@.len() == 0,
    {
        FutexTable { table: VecDeque::new(), woken: Vec::new() }
    }

    /// Queues `waiter` on `addr` if the futex word still holds `expected`;
    /// the caller parks it when this returns true.
    pub fn ftx_wait(&mut self, addr: usize, expected: u32, val: u32, waiter: usize) -> (r: bool)
        ensures
            r == (val == expected),
            final(self).table@ == if r { old(self).table@.push((addr, waiter)) } else { old(self).table@ },
            final(self).woken@ == old(self).woken@,
    {
        if val != expected {
            return false;
        }
        self.table.push_back((addr, waiter));
        true
    }

    /// Wakes waiters on `addr` as `ftx_wake_spec` says; returns the count.
    pub fn ftx_wake(&mut self, addr: usize, count: usize) -> (r: usize)
        ensures
            ({
                let (k, w, n) = ftx_wake_spec(old(self).table@, addr, count as nat, 0);
                &&& final(self).table@ == k
                &&& final(self).woken@ == old(self).woken@ + w
                &&& r == n
            }),
    {
        let ghost s = self.table@;
        let mut kept: VecDeque<(usize, usize)> = VecDeque::new();
        let mut woken: Vec<usize> = Vec::new();
        let mut wk: usize = 0;
        let mut i: usize = 0;
        assert(s.skip(0) =~= s);
        while i < self.table.len()
            invariant
                s == self.table@,
                wk <= i,
                i <= s.len(),
                ({
                    let (k, w, n) = ftx_wake_spec(s.skip(i as int), addr, count as nat, wk as nat);
                    ftx_wake_spec(s, addr, count as nat, 0) == (kept@ + k, woken@ + w, n)
                }),
            decreases s.len() - i,
        {
            if wk > count {
                let ghost k0 = kept@;
                copy_tail(&mut kept, &self.table, i);
                proof {
                    assert(kept@ + s.skip(s.len() as int) =~= k0 + s.skip(i as int));
                    assert(woken@ + Seq::<usize>::empty() =~= woken@);
                }
                i = self.table.len();
                continue;
            }
            let h = self.table[i];
            let ghost t = s.skip(i as int);
            assert(t[0] == h);
            assert(t.drop_first() =~= s.skip(i as int + 1));
            if h.0 == addr && wk + 1 < count {
                proof {
                    let (k, w, n) = ftx_wake_spec(s.skip(i as int + 1), addr, count as nat, wk as nat + 1);
                    assert(woken@ + (seq![h.1] + w) =~= woken@.push(h.1) + w);
                }
                woken.push(h.1);
                wk = wk + 1;
            } else if h.0 == addr {
                proof {
                    let (k, w, n) = ftx_wake_spec(s.skip(i as int + 1), addr, count as nat, wk as nat + 1);
                    assert(kept@ + (seq![h] + k) =~= kept@.push(h) + k);
                }
                kept.push_back(h);
                wk = wk + 1;
            } else {
                proof {
                    let (k, w, n) = ftx_wake_spec(s.skip(i as int + 1), addr, count as nat, wk as nat);
                    assert(kept@ + (seq![h] + k) =~= kept@.push(h) + k);
                }
                kept.push_back(h);
            }
            i = i + 1;
        }
        proof {
            assert(kept@ + s.skip(i as int) =~= kept@);
            assert(woken@ + Seq::<usize>::empty() =~= woken@);
        }
        self.table = kept;
        append_ids(&mut self.woken, woken);
        wk
    }

    /// Wakes up to `wake_n` waiters on `src` and moves up to `move_n` more to
    /// `dst`; returns how many were woken.
    pub fn ftx_requeue(&mut self, src_addr: usize, dst_addr: usize, wake_n: usize, move_n: usize) -> (r: usize)
        ensures
            ({
                let (k, w, n) = requeue_spec(old(self).table@, src_addr, dst_addr, wake_n as nat, move_n as nat, 0, 0);
                &&& final(self).table@ == k
                &&& final(self).woken@ == old(self).woken@ + w
                &&& r == n
            }),
    {
        let (kept, woken, wk) = do_requeue(&self.table, src_addr, dst_addr, wake_n, move_n);
        self.table = kept;
        append_ids(&mut self.woken, woken);
        wk
    }
}

} // verus!
