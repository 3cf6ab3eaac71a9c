//! Byte rings, wait queues and the byte channel built on them. Waiting is
//! the caller's part: a call that would block puts the waiter's id on the
//! queue and says so, and the ids that a call wakes are handed back.
use vstd::prelude::*;
use std::collections::VecDeque;
use crate::sync::Spin;

verus! {

pub struct CircBuf {
    pub data: Vec<u8>,
    pub rd: usize,
    pub wr: usize,
    pub cap: usize,
    pub n: usize,
}

/// The fields of a ring, with its bytes as a sequence.
pub struct RingView {
    pub data: Seq<u8>,
    pub rd: usize,
    pub wr: usize,
    pub cap: usize,
    pub n: usize,
}

impl View for CircBuf {
    type V = RingView;

    open spec fn view(&self) -> RingView {
        RingView { data: self.data@, rd: self.rd, wr: self.wr, cap: self.cap, n: self.n }
    }
}

/// The ring after a push of `v` at the write cursor, and whether it took
/// the byte: a full ring whose cursors meet, or a cursor past the storage,
/// refuses it.
pub open spec fn ring_push(b: RingView, v: u8) -> (RingView, bool) {
    let i = b.wr % b.cap;
    if (i == b.rd % b.cap && b.n >= b.cap) || i >= b.data.len() {
        (b, false)
    } else {
        (
            RingView {
                data: b.data.update(i as int, v),
                wr: vstd::wrapping::usize_specs::wrapping_add(b.wr, 1),
                n: (b.n + 1) as usize,
                ..b
            },
            true,
        )
    }
}

/// The ring after a pop at the read cursor, and the byte popped.
pub open spec fn ring_pop(b: RingView) -> (RingView, Option<u8>) {
    let i = b.rd % b.cap;
    if b.n == 0 || i >= b.data.len() {
        (b, None)
    } else {
        (
            RingView { rd: vstd::wrapping::usize_specs::wrapping_add(b.rd, 1), n: (b.n - 1) as usize, ..b },
            Some(b.data[i as int]),
        )
    }
}

/// A channel's ring after a send of `v`: the write cursor moves first and
/// the byte goes where it then points.
pub open spec fn chan_send(b: RingView, v: u8) -> (RingView, bool) {
    let w = vstd::wrapping::usize_specs::wrapping_add(b.wr, 1);
    let i = w % b.cap;
    if b.n >= b.cap || i >= b.data.len() {
        (b, false)
    } else {
        (RingView { data: b.data.update(i as int, v), wr: w, n: (b.n + 1) as usize, ..b }, true)
    }
}

/// A channel's ring after a receive: the read cursor moves first and the
/// byte is read where it then points.
pub open spec fn chan_take(b: RingView) -> (RingView, Option<u8>) {
    let r = vstd::wrapping::usize_specs::wrapping_add(b.rd, 1);
    let i = r % b.cap;
    if b.n == 0 || i >= b.data.len() {
        (b, None)
    } else {
        (RingView { rd: r, n: (b.n - 1) as usize, ..b }, Some(b.data[i as int]))
    }
}

/// The bytes that a channel drain takes out, and the ring it leaves.
pub open spec fn chan_drain(b: RingView, fuel: nat) -> (RingView, Seq<u8>)
    decreases fuel,
{
    if fuel == 0 {
        (b, Seq::empty())
    } else {
        match chan_take(b).1 {
            None => (b, Seq::empty()),
            Some(v) => {
                let rest = chan_drain(chan_take(b).0, (fuel - 1) as nat);
                (rest.0, seq![v] + rest.1)
            },
        }
    }
}

/// The ring after the bytes of `s` are sent in order until one is
/// refused, and how many went in.
pub open spec fn chan_send_all(b: RingView, s: Seq<u8>) -> (RingView, nat)
    decreases s.len(),
{
    if s.len() == 0 {
        (b, 0)
    } else if !chan_send(b, s[0]).1 {
        (b, 0)
    } else {
        let rest = chan_send_all(chan_send(b, s[0]).0, s.skip(1));
        (rest.0, rest.1 + 1)
    }
}

impl CircBuf {
    pub fn new(c: usize) -> (r: Self)
        ensures
            r@ == (RingView { data: Seq::new(c as nat, |i: int| 0u8), rd: 0, wr: 0, cap: c, n: 0 }),
    {
        let data = zeroed(c);
        CircBuf { data, rd: 0, wr: 0, cap: c, n: 0 }
    }

    /// A ring of `c` bytes whose cursors stand at `r` and `w`, holding the
    /// bytes between them.
    pub fn with_pos(c: usize, r: usize, w: usize) -> (b: Self)
        requires
            w < r ==> r <= c && c - r + w <= usize::MAX,
        ensures
            b@ == (RingView {
                data: Seq::new(c as nat, |i: int| 0u8),
                rd: r,
                wr: w,
                cap: c,
                n: (if w >= r { w - r } else { c - r + w }) as usize,
            }),
    {
        let n = if w >= r { w - r } else { c - r + w };
        CircBuf { data: zeroed(c), rd: r, wr: w, cap: c, n }
    }

    pub fn push(&mut self, v: u8) -> (r: bool)
        requires
            old(self).cap > 0,
            old(self).n < usize::MAX,
        ensures
            (final(self)@, r) == ring_push(old(self)@, v),
    {
        let i = self.wr % self.cap;
        self.wr = self.wr.wrapping_add(1);
        if i == self.rd % self.cap && self.n >= self.cap {
            self.wr = self.wr.wrapping_sub(1);
            return false;
        }
        if i >= self.data.len() {
            self.wr = self.wr.wrapping_sub(1);
            return false;
        }
        self.data.set(i, v);
        self.n = self.n + 1;
        true
    }

    pub fn pop(&mut self) -> (r: Option<u8>)
        requires
            old(self).cap > 0,
        ensures
            (final(self)@, r) == ring_pop(old(self)@),
    {
        if self.n == 0 {
            return None;
        }
        let i = self.rd % self.cap;
        self.rd = self.rd.wrapping_add(1);
        if i >= self.data.len() {
            self.rd = self.rd.wrapping_sub(1);
            return None;
        }
        self.n = self.n - 1;
        Some(self.data[i])
    }

    pub fn len(&self) -> (r: usize)
        ensures
            r == self.n,
    {
        self.n
    }

    pub fn empty(&self) -> (r: bool)
        ensures
            r == (self.n == 0),
    {
        self.n == 0
    }

    pub fn full(&self) -> (r: bool)
        ensures
            r == (self.n >= self.cap),
    {
        self.n >= self.cap
    }

    /// The byte one past the read cursor, when the ring holds any.
    pub fn peek(&self) -> (r: Option<u8>)
        requires
            self.cap > 0,
        ensures
            ({
                let i = vstd::wrapping::usize_specs::wrapping_add(self.rd, 1) % self.cap;
                r == if self.n == 0 || i >= self.data@.len() { None } else { Some(self.data@[i as int]) }
            }),
    {
        if self.n == 0 {
            return None;
        }
        let i = self.rd.wrapping_add(1) % self.cap;
        if i >= self.data.len() {
            return None;
        }
        Some(self.data[i])
    }

    /// Pops up to `max` bytes onto `dst`; returns how many it meant to take.
    pub fn drain_to(&mut self, dst: &mut Vec<u8>, max: usize) -> (r: usize)
        requires
            old(self).cap > 0,
        ensures
            r == if max < old(self).n { max } else { old(self).n },
            (final(self)@, final(dst)@) == pop_n(old(self)@, old(dst)@, r as nat),
    {
        let take = if max < self.n { max } else { self.n };
        let mut k: usize = 0;
        while k < take
            invariant
                k <= take,
                self.cap == old(self).cap,
                self.cap > 0,
                pop_n(self@, dst@, (take - k) as nat) == pop_n(old(self)@, old(dst)@, take as nat),
            decreases take - k,
        {
            match self.pop() {
                Some(b) => {
                    dst.push(b);
                },
                None => {},
            }
            k = k + 1;
        }
        take
    }

    /// Pushes the bytes of `src` in order until one is refused; returns how
    /// many went in.
    pub fn fill_from(&mut self, src: &[u8]) -> (r: usize)
        requires
            old(self).cap > 0,
            old(self).n + src@.len() <= usize::MAX,
        ensures
            (final(self)@, r as nat) == push_all(old(self)@, src@),
    {
        let mut written: usize = 0;
        let ghost s = src@;
        assert(s.skip(0) =~= s);
        while written < src.len()
            invariant
                written <= s.len(),
                s == src@,
                self.cap == old(self).cap,
                self.cap > 0,
                self.n == old(self).n + written,
                old(self).n + s.len() <= usize::MAX,
                ({
                    let rest = push_all(self@, s.skip(written as int));
                    (rest.0, (rest.1 + written) as nat) == push_all(old(self)@, s)
                }),
            decreases s.len() - written,
        {
            assert(s.skip(written as int).skip(1) =~= s.skip(written + 1));
            assert(s.skip(written as int)[0] == s[written as int]);
            if !self.push(src[written]) {
                return written;
            }
            written = written + 1;
        }
        assert(s.skip(written as int) =~= Seq::<u8>::empty());
        written
    }

    pub fn remaining(&self) -> (r: usize)
        ensures
            r == if self.cap >= self.n { self.cap - self.n } else { 0 },
    {
        self.cap.saturating_sub(self.n)
    }
}

/// The ring and the target after `k` pops, each popped byte pushed onto
/// the target.
pub open spec fn pop_n(b: RingView, dst: Seq<u8>, k: nat) -> (RingView, Seq<u8>)
    decreases k,
{
    if k == 0 {
        (b, dst)
    } else {
        let p = ring_pop(b);
        match p.1 {
            Some(v) => pop_n(p.0, dst.push(v), (k - 1) as nat),
            None => pop_n(p.0, dst, (k - 1) as nat),
        }
    }
}

/// The ring after the bytes of `s` are pushed in order until one is
/// refused, and how many went in.
pub open spec fn push_all(b: RingView, s: Seq<u8>) -> (RingView, nat)
    decreases s.len(),
{
    if s.len() == 0 {
        (b, 0)
    } else if !ring_push(b, s[0]).1 {
        (b, 0)
    } else {
        let rest = push_all(ring_push(b, s[0]).0, s.skip(1));
        (rest.0, rest.1 + 1)
    }
}

pub struct RegEp {
    pub task_id: usize,
    pub epfd: usize,
    pub fd: usize,
}

/// Waiters by id, in arrival order, the ids woken and not yet handed to
/// the scheduler, and the epoll registrations watching this queue.
pub struct SyncQueue {
    pub q: VecDeque<usize>,
    pub eq: VecDeque<RegEp>,
    pub woken: Vec<usize>,
}

impl SyncQueue {
    pub fn new() -> (r: Self)
        ensures
            r.q@.len() == 0,
            r.eq@.len() == 0,
            r.woken@.len() == 0,
    {
        SyncQueue { q: VecDeque::new(), eq: VecDeque::new(), woken: Vec::new() }
    }

    /// Lets `waiter` through when `ready`; queues it otherwise, to be
    /// asked again once woken.
    pub fn park_on(&mut self, ready: bool, waiter: usize) -> (r: bool)
        ensures
            r == ready,
            final(self).q@ == if ready { old(self).q@ } else { old(self).q@.push(waiter) },
            final(self).eq@ == old(self).eq@,
            final(self).woken@ == old(self).woken@,
    {
        if ready {
            return true;
        }
        self.q.push_back(waiter);
        false
    }

    /// Wakes the first waiter, if any.
    pub fn signal(&mut self)
        ensures
            old(self).q@.len() == 0 ==> *final(self) == *old(self),
            old(self).q@.len() > 0 ==> final(self).q@ == old(self).q@.drop_first() && final(self).woken@
                == old(self).woken@.push(old(self).q@[0]),
            final(self).eq@ == old(self).eq@,
    {
        if self.q.len() > 0 {
            let t = self.q.pop_front().unwrap();
            self.woken.push(t);
            assert(self.q@ =~= old(self).q@.drop_first());
        }
    }

    /// Wakes every waiter, in order.
    pub fn broadcast(&mut self)
        ensures
            final(self).q@.len() == 0,
            final(self).woken@ == old(self).woken@ + old(self).q@,
            final(self).eq@ == old(self).eq@,
    {
        let n = self.signal_n(self.q.len());
        assert(old(self).q@.take(n as int) =~= old(self).q@);
    }

    /// Wakes the first `n` waiters, or all of them when there are fewer;
    /// returns how many.
    pub fn signal_n(&mut self, n: usize) -> (r: usize)
        ensures
            r == if n < old(self).q@.len() { n as int } else { old(self).q@.len() as int },
            final(self).q@ == old(self).q@.skip(r as int),
            final(self).woken@ == old(self).woken@ + old(self).q@.take(r as int),
            final(self).eq@ == old(self).eq@,
    {
        let avail = self.q.len();
        let to_wake = if n < avail { n } else { avail };
        let mut woken: usize = 0;
        while woken < to_wake
            invariant
                to_wake <= old(self).q@.len(),
                woken <= to_wake,
                self.q@ == old(self).q@.skip(woken as int),
                self.woken@ == old(self).woken@ + old(self).q@.take(woken as int),
                self.eq@ == old(self).eq@,
            decreases to_wake - woken,
        {
            let t = self.q.pop_front().unwrap();
            self.woken.push(t);
            woken = woken + 1;
            assert(self.q@ =~= old(self).q@.skip(woken as int));
            assert(self.woken@ =~= old(self).woken@ + old(self).q@.take(woken as int));
        }
        woken
    }

    pub fn pending(&self) -> (r: usize)
        ensures
            r == self.q@.len(),
    {
        self.q.len()
    }

    /// Hands over the woken ids, leaving none.
    pub fn take_woken(&mut self) -> (r: Vec<usize>)
        ensures
            r@ == old(self).woken@,
            final(self).woken@.len() == 0,
            final(self).q@ == old(self).q@,
            final(self).eq@ == old(self).eq@,
    {
        let mut out: Vec<usize> = Vec::new();
        std::mem::swap(&mut out, &mut self.woken);
        out
    }

    /// Answers with the condition once it is decided; queues `waiter`
    /// while it is not.
    pub fn wait_ev(&mut self, cond: Option<bool>, waiter: usize) -> (r: Option<bool>)
        ensures
            r == cond,
            final(self).q@ == if cond is Some { old(self).q@ } else { old(self).q@.push(waiter) },
            final(self).eq@ == old(self).eq@,
            final(self).woken@ == old(self).woken@,
    {
        if cond.is_some() {
            return cond;
        }
        self.q.push_back(waiter);
        None
    }

    /// As `wait_ev`, queueing `waiter` on every queue of `queues`.
    pub fn wait_events(queues: &mut Vec<SyncQueue>, cond: Option<bool>, waiter: usize) -> (r: Option<bool>)
        ensures
            r == cond,
            final(queues)@.len() == old(queues)@.len(),
            forall|i: int|
                0 <= i < old(queues)@.len() ==> {
                    &&& (#[trigger] final(queues)@[i]).q@ == if cond is Some {
                        old(queues)@[i].q@
                    } else {
                        old(queues)@[i].q@.push(waiter)
                    }
                    &&& final(queues)@[i].eq@ == old(queues)@[i].eq@
                    &&& final(queues)@[i].woken@ == old(queues)@[i].woken@
                },
    {
        if cond.is_some() {
            return cond;
        }
        let mut i: usize = 0;
        while i < queues.len()
            invariant
                i <= queues@.len(),
                queues@.len() == old(queues)@.len(),
                forall|j: int| 0 <= j < i ==> {
                    &&& (#[trigger] queues@[j]).q@ == old(queues)@[j].q@.push(waiter)
                    &&& queues@[j].eq@ == old(queues)@[j].eq@
                    &&& queues@[j].woken@ == old(queues)@[j].woken@
                },
                forall|j: int| i <= j < queues@.len() ==> #[trigger] queues@[j] == old(queues)@[j],
            decreases queues@.len() - i,
        {
            queues[i].q.push_back(waiter);
            i = i + 1;
        }
        None
    }

    /// Queues `waiter` to be woken later.
    pub fn wait_guard(&mut self, waiter: usize)
        ensures
            final(self).q@ == old(self).q@.push(waiter),
            final(self).eq@ == old(self).eq@,
            final(self).woken@ == old(self).woken@,
    {
        self.q.push_back(waiter);
    }

    /// Queues `waiter`, whom a timer may wake as well as a signal.
    pub fn wait_timeout(&mut self, waiter: usize) -> (r: bool)
        ensures
            r,
            final(self).q@ == old(self).q@.push(waiter),
            final(self).eq@ == old(self).eq@,
            final(self).woken@ == old(self).woken@,
    {
        self.q.push_back(waiter);
        true
    }

    pub fn reg_epoll(&mut self, task_id: usize, epfd: usize, fd: usize)
        ensures
            final(self).eq@ == old(self).eq@.push(RegEp { task_id, epfd, fd }),
            final(self).q@ == old(self).q@,
            final(self).woken@ == old(self).woken@,
    {
        self.eq.push_back(RegEp { task_id, epfd, fd });
    }

    /// Removes the first registration of `(task_id, epfd, fd)`.
    pub fn unreg_epoll(&mut self, task_id: usize, epfd: usize, fd: usize) -> (r: bool)
        ensures
            final(self).q@ == old(self).q@,
            final(self).woken@ == old(self).woken@,
            r == exists|i: int| 0 <= i < old(self).eq@.len() && #[trigger] old(self).eq@[i] == (RegEp { task_id, epfd, fd }),
            r ==> exists|i: int|
                0 <= i < old(self).eq@.len() && #[trigger] old(self).eq@[i] == (RegEp { task_id, epfd, fd })
                    && (forall|j: int| 0 <= j < i ==> old(self).eq@[j] != (RegEp { task_id, epfd, fd }))
                    && final(self).eq@ == old(self).eq@.remove(i),
            !r ==> final(self).eq@ == old(self).eq@,
    {
        let mut i: usize = 0;
        while i < self.eq.len()
            invariant
                *self == *old(self),
                i <= self.eq@.len(),
                forall|j: int| 0 <= j < i ==> self.eq@[j] != (RegEp { task_id, epfd, fd }),
            decreases self.eq@.len() - i,
        {
            if self.eq[i].task_id == task_id && self.eq[i].epfd == epfd && self.eq[i].fd == fd {
                assert(self.eq@[i as int] == (RegEp { task_id, epfd, fd }));
                self.eq.remove(i);
                return true;
            }
            i = i + 1;
        }
        false
    }
}

/// What one attempt to receive from a channel comes to.
pub enum RecvStep {
    /// The receive is over, with a byte or with none.
    Done(Option<u8>),
    /// The receiver was queued; it asks again once woken.
    Wait,
}

pub struct Channel {
    pub buf: CircBuf,
    pub guard: Spin,
    pub wq: SyncQueue,
    pub shut: bool,
}

/// The capacity a channel asked for `cap` bytes gets.
pub open spec fn chan_capacity(cap: usize) -> usize {
    if cap == 0 { 1 } else if cap > 0x100000 { 0x100000 } else { cap }
}

impl Channel {
    pub fn new(cap: usize) -> (r: Self)
        ensures
            r.buf@ == (RingView {
                data: Seq::new(chan_capacity(cap) as nat, |i: int| 0u8),
                rd: 0,
                wr: 0,
                cap: chan_capacity(cap),
                n: 0,
            }),
            !r.guard.v,
            !r.shut,
            r.wq.q@.len() == 0,
            r.wq.eq@.len() == 0,
            r.wq.woken@.len() == 0,
    {
        let effective_cap: usize = if cap == 0 {
            1
        } else if cap > 0x100000 {
            0x100000
        } else {
            cap
        };
        Channel { buf: CircBuf::new(effective_cap), guard: Spin::new(), wq: SyncQueue::new(), shut: false }
    }

    /// One attempt of `waiter` to receive a byte: a byte that is there is
    /// taken, a shut channel answers nothing, and an empty open one queues
    /// the waiter. A ring whose read slot lies past its storage answers
    /// nothing and keeps the guard taken.
    pub fn recv(&mut self, waiter: usize) -> (r: RecvStep)
        requires
            !old(self).guard.v,
            old(self).buf.cap > 0,
        ensures
            final(self).shut == old(self).shut,
            ({
                let (b2, got) = chan_take(old(self).buf@);
                match got {
                    Some(v) => {
                        &&& r == RecvStep::Done(Some(v))
                        &&& final(self).buf@ == b2
                        &&& !final(self).guard.v
                        &&& final(self).wq == old(self).wq
                    },
                    None => {
                        &&& final(self).buf@ == old(self).buf@
                        &&& if old(self).shut {
                            &&& r == RecvStep::Done(None)
                            &&& !final(self).guard.v
                            &&& final(self).wq == old(self).wq
                        } else if old(self).buf.n > 0 {
                            &&& r == RecvStep::Done(None)
                            &&& final(self).guard.v
                            &&& final(self).wq == old(self).wq
                        } else {
                            &&& r == RecvStep::Wait
                            &&& !final(self).guard.v
                            &&& final(self).wq.q@ == old(self).wq.q@.push(waiter)
                            &&& final(self).wq.eq@ == old(self).wq.eq@
                            &&& final(self).wq.woken@ == old(self).wq.woken@
                        }
                    },
                }
            }),
    {
        self.guard.acquire();
        let result = self.take_one();
        if result.is_some() {
            self.guard.release();
            return RecvStep::Done(result);
        }
        if self.shut {
            self.guard.release();
            return RecvStep::Done(None);
        }
        if self.buf.n > 0 {
            return RecvStep::Done(result);
        }
        self.wq.q.push_back(waiter);
        self.guard.release();
        RecvStep::Wait
    }

    fn take_one(&mut self) -> (r: Option<u8>)
        requires
            old(self).buf.cap > 0,
        ensures
            (final(self).buf@, r) == chan_take(old(self).buf@),
            final(self).guard == old(self).guard,
            final(self).wq == old(self).wq,
            final(self).shut == old(self).shut,
    {
        if self.buf.n > 0 {
            self.buf.rd = self.buf.rd.wrapping_add(1);
            let idx = self.buf.rd % self.buf.cap;
            if idx < self.buf.data.len() {
                self.buf.n = self.buf.n - 1;
                Some(self.buf.data[idx])
            } else {
                self.buf.rd = self.buf.rd.wrapping_sub(1);
                None
            }
        } else {
            None
        }
    }

    fn put_one(&mut self, v: u8) -> (r: bool)
        requires
            old(self).buf.cap > 0,
        ensures
            (final(self).buf@, r) == chan_send(old(self).buf@, v),
            final(self).guard == old(self).guard,
            final(self).wq == old(self).wq,
            final(self).shut == old(self).shut,
    {
        if self.buf.n >= self.buf.cap {
            return false;
        }
        self.buf.wr = self.buf.wr.wrapping_add(1);
        let idx = self.buf.wr % self.buf.cap;
        if idx >= self.buf.data.len() {
            self.buf.wr = self.buf.wr.wrapping_sub(1);
            return false;
        }
        self.buf.data.set(idx, v);
        self.buf.n = self.buf.n + 1;
        true
    }

    /// Sends a byte; a byte that goes in wakes the first waiter.
    pub fn send(&mut self, v: u8) -> (r: bool)
        requires
            old(self).buf.cap > 0,
        ensures
            (final(self).buf@, r) == chan_send(old(self).buf@, v),
            final(self).guard == old(self).guard,
            final(self).shut == old(self).shut,
            !r ==> final(self).wq == old(self).wq,
            r ==> wake_first(old(self).wq, final(self).wq),
    {
        let ok = self.put_one(v);
        if ok {
            self.wq.signal();
        }
        ok
    }

    /// Shuts the channel and wakes every waiter.
    pub fn close(&mut self)
        ensures
            final(self).shut,
            final(self).buf@ == old(self).buf@,
            final(self).guard == old(self).guard,
            final(self).wq.q@.len() == 0,
            final(self).wq.woken@ == old(self).wq.woken@ + old(self).wq.q@,
            final(self).wq.eq@ == old(self).wq.eq@,
    {
        self.shut = true;
        self.wq.broadcast();
    }

    /// Receives without waiting; a guard that is taken answers nothing.
    pub fn try_recv(&mut self) -> (r: Option<u8>)
        requires
            old(self).buf.cap > 0,
        ensures
            final(self).shut == old(self).shut,
            final(self).wq == old(self).wq,
            old(self).guard.v ==> r is None && final(self).buf@ == old(self).buf@ && final(self).guard.v,
            !old(self).guard.v ==> (final(self).buf@, r) == chan_take(old(self).buf@) && !final(self).guard.v,
    {
        if !self.guard.try_acquire() {
            return None;
        }
        let r = self.take_one();
        self.guard.release();
        r
    }

    /// Sends the bytes of `data` in order until one is refused; when any
    /// went in, wakes the first waiter. Returns how many went in.
    pub fn send_batch(&mut self, data: &[u8]) -> (r: usize)
        requires
            old(self).buf.cap > 0,
        ensures
            (final(self).buf@, r as nat) == chan_send_all(old(self).buf@, data@),
            final(self).guard == old(self).guard,
            final(self).shut == old(self).shut,
            r == 0 ==> final(self).wq == old(self).wq,
            r > 0 ==> wake_first(old(self).wq, final(self).wq),
    {
        let mut written: usize = 0;
        let ghost s = data@;
        assert(s.skip(0) =~= s);
        while written < data.len()
            invariant
                written <= s.len(),
                s == data@,
                self.buf.cap == old(self).buf.cap,
                self.buf.cap > 0,
                self.guard == old(self).guard,
                self.shut == old(self).shut,
                self.wq == old(self).wq,
                ({
                    let rest = chan_send_all(self.buf@, s.skip(written as int));
                    (rest.0, (rest.1 + written) as nat) == chan_send_all(old(self).buf@, s)
                }),
            ensures
                chan_send_all(self.buf@, s.skip(written as int)) == (self.buf@, 0nat),
            decreases s.len() - written,
        {
            assert(s.skip(written as int).skip(1) =~= s.skip(written + 1));
            assert(s.skip(written as int)[0] == s[written as int]);
            if !self.put_one(data[written]) {
                break;
            }
            written = written + 1;
        }
        if written == data.len() {
            assert(s.skip(written as int) =~= Seq::<u8>::empty());
        }
        if written > 0 {
            self.wq.signal();
        }
        written
    }

    pub fn depth(&self) -> (r: usize)
        ensures
            r == self.buf.n,
    {
        self.buf.n
    }

    /// Takes every byte the channel holds, in order.
    pub fn drain_all(&mut self) -> (r: Vec<u8>)
        requires
            old(self).buf.cap > 0,
        ensures
            (final(self).buf@, r@) == chan_drain(old(self).buf@, old(self).buf.n as nat),
            final(self).guard == old(self).guard,
            final(self).wq == old(self).wq,
            final(self).shut == old(self).shut,
    {
        let mut result: Vec<u8> = Vec::new();
        while self.buf.n > 0
            invariant
                self.buf.cap == old(self).buf.cap,
                self.buf.cap > 0,
                self.guard == old(self).guard,
                self.wq == old(self).wq,
                self.shut == old(self).shut,
                ({
                    let rest = chan_drain(self.buf@, self.buf.n as nat);
                    (rest.0, result@ + rest.1) == chan_drain(old(self).buf@, old(self).buf.n as nat)
                }),
            ensures
                chan_drain(self.buf@, self.buf.n as nat) == (self.buf@, Seq::<u8>::empty()),
            decreases self.buf.n,
        {
            let ghost before = self.buf@;
            match self.take_one() {
                Some(v) => {
                    result.push(v);
                    proof {
                        assert(chan_drain(before, before.n as nat).1 == seq![v] + chan_drain(self.buf@, self.buf.n as nat).1);
                        assert(result@ + chan_drain(self.buf@, self.buf.n as nat).1 =~= (result@.drop_last() + seq![v]) + chan_drain(self.buf@, self.buf.n as nat).1);
                    }
                },
                None => {
                    break;
                },
            }
        }
        assert(result@ + Seq::<u8>::empty() =~= result@);
        result
    }

    pub fn is_closed(&self) -> (r: bool)
        ensures
            r == self.shut,
    {
        self.shut
    }

    pub fn remaining_capacity(&self) -> (r: usize)
        ensures
            r == if self.buf.cap >= self.buf.n { self.buf.cap - self.buf.n } else { 0 },
    {
        self.buf.remaining()
    }
}

/// A byte sent into an empty channel whose cursors meet is the byte that
/// the next receive gets, and the channel is empty again after it.
pub proof fn law_send_then_take(b: RingView, v: u8)
    requires
        b.n == 0,
        b.rd == b.wr,
        0 < b.cap,
        b.data.len() == b.cap,
    ensures
        chan_send(b, v).1,
        chan_take(chan_send(b, v).0).1 == Some(v),
        chan_take(chan_send(b, v).0).0.n == 0,
        chan_take(chan_send(b, v).0).0.rd == chan_take(chan_send(b, v).0).0.wr,
{
}

/// A byte pushed into an empty ring whose cursors meet is the byte that the
/// next pop gets, and the ring is empty again after it.
pub proof fn law_push_then_pop(b: RingView, v: u8)
    requires
        b.n == 0,
        b.rd == b.wr,
        0 < b.cap,
        b.data.len() == b.cap,
    ensures
        ring_push(b, v).1,
        ring_pop(ring_push(b, v).0).1 == Some(v),
        ring_pop(ring_push(b, v).0).0.n == 0,
        ring_pop(ring_push(b, v).0).0.rd == ring_pop(ring_push(b, v).0).0.wr,
{
}

/// `after` is `before` with its first waiter, if any, woken.
pub open spec fn wake_first(before: SyncQueue, after: SyncQueue) -> bool {
    &&& after.eq@ == before.eq@
    &&& before.q@.len() == 0 ==> after.q@ == before.q@ && after.woken@ == before.woken@
    &&& before.q@.len() > 0 ==> after.q@ == before.q@.drop_first() && after.woken@ == before.woken@.push(before.q@[0])
}

fn zeroed(c: usize) -> (r: Vec<u8>)
    ensures
        r@ == Seq::new(c as nat, |i: int| 0u8),
{
    let mut v: Vec<u8> = Vec::new();
    let mut i: usize = 0;
    while i < c
        invariant
            i <= c,
            v@ == Seq::new(i as nat, |j: int| 0u8),
        decreases c - i,
    {
        v.push(0u8);
        i = i + 1;
        assert(v@ =~= Seq::new(i as nat, |j: int| 0u8));
    }
    v
}

} // verus!
