//! The block I/O queue: requests wait in arrival order and are dispatched
//! by an elevator that sweeps up and down the disk.
use vstd::prelude::*;
use std::collections::VecDeque;

verus! {

pub const IOQUEUE_DEPTH: usize = 128;

#[derive(Clone, Copy)]
pub struct IoRequest {
    pub block: usize,
    pub write: bool,
    pub priority: u8,
    pub submitted_tick: usize,
}

pub struct IoQueue {
    pub pending: VecDeque<IoRequest>,
    pub head_pos: usize,
    pub direction_up: bool,
    pub dispatched: usize,
    pub merged: usize,
}

/// How far the elevator at `head` has to go for `block`: ahead of it in
/// its direction the plain distance, behind it a penalty past half the
/// word.
pub open spec fn seek_dist(block: usize, head: usize, up: bool) -> int {
    if up {
        if block >= head { block - head } else { usize::MAX / 2 + block }
    } else {
        if block <= head { head - block } else { usize::MAX / 2 + head }
    }
}

/// No request's distance leaves the word.
pub open spec fn dists_fit(q: Seq<IoRequest>, head: usize, up: bool) -> bool {
    forall|i: int| 0 <= i < q.len() ==> seek_dist((#[trigger] q[i]).block, head, up) <= usize::MAX
}

/// `i` is the first request of `q` nearest to the elevator.
pub open spec fn nearest(q: Seq<IoRequest>, head: usize, up: bool, i: int) -> bool {
    &&& 0 <= i < q.len()
    &&& forall|j: int| 0 <= j < q.len() ==> seek_dist(q[i].block, head, up) <= seek_dist((#[trigger] q[j]).block, head, up)
    &&& forall|j: int| 0 <= j < i ==> seek_dist(q[i].block, head, up) < seek_dist((#[trigger] q[j]).block, head, up)
}

/// The direction after serving `block` from `head` going `up`, with `rest`
/// left: a sweep that served the last request ahead of it turns round.
pub open spec fn next_direction(rest: Seq<IoRequest>, block: usize, head: usize, up: bool) -> bool {
    if up && block >= head {
        if forall|j: int| 0 <= j < rest.len() ==> (#[trigger] rest[j]).block < block { false } else { up }
    } else if !up && block <= head {
        if forall|j: int| 0 <= j < rest.len() ==> (#[trigger] rest[j]).block > block { true } else { up }
    } else {
        up
    }
}

/// `q` with every request that continues the one before it (the next
/// block, in the same direction of transfer) folded into it.
pub open spec fn merge_seq(q: Seq<IoRequest>) -> Seq<IoRequest>
    decreases q.len(),
{
    if q.len() <= 1 {
        q
    } else if q[0].block + 1 == q[1].block && q[0].write == q[1].write {
        merge_seq(seq![q[0]] + q.skip(2))
    } else {
        seq![q[0]] + merge_seq(q.skip(1))
    }
}

proof fn lemma_merge_len(q: Seq<IoRequest>)
    ensures
        merge_seq(q).len() <= q.len(),
    decreases q.len(),
{
    if q.len() > 1 {
        if q[0].block + 1 == q[1].block && q[0].write == q[1].write {
            lemma_merge_len(seq![q[0]] + q.skip(2));
        } else {
            lemma_merge_len(q.skip(1));
        }
    }
}

impl IoQueue {
    pub fn new() -> (r: Self)
        ensures
            r.pending@.len() == 0,
            r.head_pos == 0,
            r.direction_up,
            r.dispatched == 0,
            r.merged == 0,
    {
        IoQueue { pending: VecDeque::new(), head_pos: 0, direction_up: true, dispatched: 0, merged: 0 }
    }

    /// Queues a request for `blk`, stamped with clock `now`.
    pub fn submit(&mut self, blk: usize, write: bool, priority: u8, now: usize)
        ensures
            final(self).pending@ == old(self).pending@.push(
                IoRequest { block: blk, write, priority, submitted_tick: now },
            ),
            final(self).head_pos == old(self).head_pos,
            final(self).direction_up == old(self).direction_up,
            final(self).dispatched == old(self).dispatched,
            final(self).merged == old(self).merged,
    {
        self.pending.push_back(IoRequest { block: blk, write, priority, submitted_tick: now });
    }

    /// Queues each of `requests` in order, stamped with clock `now`; a
    /// queue that grows past its depth has its adjacent requests merged.
    /// Returns how many were queued.
    pub fn submit_batch(&mut self, requests: &[(usize, bool, u8)], now: usize) -> (r: usize)
        requires
            forall|i: int| 0 <= i < old(self).pending@.len() ==> (#[trigger] old(self).pending@[i]).block < usize::MAX,
            forall|i: int| 0 <= i < requests@.len() ==> (#[trigger] requests@[i]).0 < usize::MAX,
        ensures
            r == requests@.len(),
            ({
                let queued = old(self).pending@ + Seq::new(
                    requests@.len(),
                    |i: int| IoRequest { block: requests@[i].0, write: requests@[i].1, priority: requests@[i].2, submitted_tick: now },
                );
                if queued.len() > IOQUEUE_DEPTH {
                    &&& final(self).pending@ == merge_seq(queued)
                    &&& final(self).merged == vstd::wrapping::usize_specs::wrapping_add(
                        old(self).merged,
                        (queued.len() - merge_seq(queued).len()) as usize,
                    )
                } else {
                    final(self).pending@ == queued && final(self).merged == old(self).merged
                }
            }),
            final(self).head_pos == old(self).head_pos,
            final(self).direction_up == old(self).direction_up,
            final(self).dispatched == old(self).dispatched,
    {
        let ghost new_reqs = Seq::new(
            requests@.len(),
            |i: int| IoRequest { block: requests@[i].0, write: requests@[i].1, priority: requests@[i].2, submitted_tick: now },
        );
        let mut count: usize = 0;
        while count < requests.len()
            invariant
                count <= requests@.len(),
                new_reqs.len() == requests@.len(),
                forall|i: int| 0 <= i < requests@.len() ==> #[trigger] new_reqs[i] == (IoRequest {
                    block: requests@[i].0,
                    write: requests@[i].1,
                    priority: requests@[i].2,
                    submitted_tick: now,
                }),
                self.pending@ == old(self).pending@ + new_reqs.take(count as int),
                self.head_pos == old(self).head_pos,
                self.direction_up == old(self).direction_up,
                self.dispatched == old(self).dispatched,
                self.merged == old(self).merged,
            decreases requests@.len() - count,
        {
            let (blk, wr, prio) = requests[count];
            assert(new_reqs[count as int] == IoRequest { block: blk, write: wr, priority: prio, submitted_tick: now });
            assert(new_reqs.take(count + 1) =~= new_reqs.take(count as int).push(new_reqs[count as int]));
            self.pending.push_back(IoRequest { block: blk, write: wr, priority: prio, submitted_tick: now });
            count = count + 1;
            assert(self.pending@ =~= old(self).pending@ + new_reqs.take(count as int));
        }
        assert(new_reqs.take(count as int) =~= new_reqs);
        if self.pending.len() > IOQUEUE_DEPTH {
            proof {
                assert forall|i: int| 0 <= i < self.pending@.len() implies (#[trigger] self.pending@[i]).block < usize::MAX by {
                    if i >= old(self).pending@.len() {
                        assert(self.pending@[i] == new_reqs[i - old(self).pending@.len()]);
                    }
                }
            }
            self.merge_adjacent();
        }
        count
    }

    /// Serves the request nearest to the elevator in its direction (the
    /// first of the nearest), moves the head to it, turns the elevator round
    /// when nothing is left ahead, and returns the request's block and
    /// direction of transfer.
    pub fn dispatch(&mut self) -> (r: Option<(usize, bool)>)
        requires
            dists_fit(old(self).pending@, old(self).head_pos, old(self).direction_up),
        ensures
            old(self).pending@.len() == 0 ==> r is None && *final(self) == *old(self),
            old(self).pending@.len() > 0 ==> exists|i: int|
                #[trigger] nearest(old(self).pending@, old(self).head_pos, old(self).direction_up, i) && {
                    let req = old(self).pending@[i];
                    &&& r == Some((req.block, req.write))
                    &&& final(self).pending@ == old(self).pending@.remove(i)
                    &&& final(self).head_pos == req.block
                    &&& final(self).direction_up == next_direction(
                        final(self).pending@,
                        req.block,
                        old(self).head_pos,
                        old(self).direction_up,
                    )
                    &&& final(self).dispatched == vstd::wrapping::usize_specs::wrapping_add(old(self).dispatched, 1)
                    &&& final(self).merged == old(self).merged
                },
    {
        if self.pending.len() == 0 {
            return None;
        }
        let head = self.head_pos;
        let going_up = self.direction_up;
        let ghost q = self.pending@;
        let mut best_idx: usize = 0;
        let mut best_dist: usize = usize::MAX;
        let mut i: usize = 0;
        while i < self.pending.len()
            invariant
                q == self.pending@,
                q.len() > 0,
                head == self.head_pos,
                going_up == self.direction_up,
                dists_fit(q, head, going_up),
                i <= q.len(),
                best_idx < q.len(),
                i > 0 ==> best_idx < i && best_dist == seek_dist(q[best_idx as int].block, head, going_up),
                i == 0 ==> best_idx == 0 && best_dist == usize::MAX,
                forall|j: int| 0 <= j < i ==> best_dist <= seek_dist((#[trigger] q[j]).block, head, going_up),
                forall|j: int| 0 <= j < best_idx ==> best_dist < seek_dist((#[trigger] q[j]).block, head, going_up),
            decreases q.len() - i,
        {
            let b = self.pending[i].block;
            assert(seek_dist(q[i as int].block, head, going_up) <= usize::MAX);
            let dist = if going_up {
                if b >= head {
                    b - head
                } else {
                    usize::MAX / 2 + b
                }
            } else {
                if b <= head {
                    head - b
                } else {
                    usize::MAX / 2 + head
                }
            };
            if dist < best_dist {
                best_dist = dist;
                best_idx = i;
            }
            i = i + 1;
        }
        proof {
            if best_dist == usize::MAX {
                assert forall|j: int| 0 <= j < q.len() implies seek_dist(q[best_idx as int].block, head, going_up) <= seek_dist((#[trigger] q[j]).block, head, going_up) by {
                    assert(seek_dist(q[j].block, head, going_up) <= usize::MAX);
                }
            }
            assert(nearest(q, head, going_up, best_idx as int));
        }
        let req = self.pending.remove(best_idx).unwrap();
        self.head_pos = req.block;
        if going_up && req.block >= head {
            if self.all_below(req.block) {
                self.direction_up = false;
            }
        } else if !going_up && req.block <= head {
            if self.all_above(req.block) {
                self.direction_up = true;
            }
        }
        self.dispatched = self.dispatched.wrapping_add(1);
        Some((req.block, req.write))
    }

    fn all_below(&self, b: usize) -> (r: bool)
        ensures
            r == forall|j: int| 0 <= j < self.pending@.len() ==> (#[trigger] self.pending@[j]).block < b,
    {
        let mut i: usize = 0;
        while i < self.pending.len()
            invariant
                i <= self.pending@.len(),
                forall|j: int| 0 <= j < i ==> (#[trigger] self.pending@[j]).block < b,
            decreases self.pending@.len() - i,
        {
            if self.pending[i].block >= b {
                return false;
            }
            i = i + 1;
        }
        true
    }

    fn all_above(&self, b: usize) -> (r: bool)
        ensures
            r == forall|j: int| 0 <= j < self.pending@.len() ==> (#[trigger] self.pending@[j]).block > b,
    {
        let mut i: usize = 0;
        while i < self.pending.len()
            invariant
                i <= self.pending@.len(),
                forall|j: int| 0 <= j < i ==> (#[trigger] self.pending@[j]).block > b,
            decreases self.pending@.len() - i,
        {
            if self.pending[i].block <= b {
                return false;
            }
            i = i + 1;
        }
        true
    }

    /// Folds each request that continues the one before it into it;
    /// returns how many were folded.
    pub fn merge_adjacent(&mut self) -> (r: usize)
        requires
            forall|i: int| 0 <= i < old(self).pending@.len() ==> (#[trigger] old(self).pending@[i]).block < usize::MAX,
        ensures
            final(self).pending@ == merge_seq(old(self).pending@),
            r == old(self).pending@.len() - merge_seq(old(self).pending@).len(),
            final(self).merged == vstd::wrapping::usize_specs::wrapping_add(old(self).merged, r),
            final(self).head_pos == old(self).head_pos,
            final(self).direction_up == old(self).direction_up,
            final(self).dispatched == old(self).dispatched,
    {
        let ghost orig = self.pending@;
        let n0 = self.pending.len();
        let mut merged: usize = 0;
        let mut i: usize = 0;
        proof {
            lemma_merge_len(orig);
            assert(orig.skip(0) =~= orig);
        }
        while i + 1 < self.pending.len()
            invariant
                i <= self.pending@.len(),
                self.pending@.len() > 0 ==> i < self.pending@.len(),
                merge_seq(orig) == self.pending@.take(i as int) + merge_seq(self.pending@.skip(i as int)),
                merged == orig.len() - self.pending@.len(),
                n0 == orig.len(),
                self.pending@.len() <= orig.len(),
                forall|j: int| 0 <= j < self.pending@.len() ==> (#[trigger] self.pending@[j]).block < usize::MAX,
                self.head_pos == old(self).head_pos,
                self.direction_up == old(self).direction_up,
                self.dispatched == old(self).dispatched,
                self.merged == old(self).merged,
            decreases self.pending@.len() - i,
        {
            let ghost s = self.pending@.skip(i as int);
            assert(s[0] == self.pending@[i as int]);
            assert(s[1] == self.pending@[i + 1]);
            if self.pending[i].block + 1 == self.pending[i + 1].block && self.pending[i].write == self.pending[i + 1].write {
                self.pending.remove(i + 1);
                merged = merged + 1;
                proof {
                    assert(self.pending@.skip(i as int) =~= seq![s[0]] + s.skip(2));
                    assert(self.pending@.take(i as int) =~= old(self).pending@.take(0) + self.pending@.take(i as int));
                }
            } else {
                proof {
                    assert(s.skip(1) =~= self.pending@.skip(i + 1));
                    assert(self.pending@.take(i + 1) =~= self.pending@.take(i as int) + seq![s[0]]);
                }
                i = i + 1;
            }
        }
        proof {
            let s = self.pending@.skip(i as int);
            assert(s.len() <= 1);
            assert(self.pending@ =~= self.pending@.take(i as int) + s);
        }
        self.merged = self.merged.wrapping_add(merged);
        merged
    }

    pub fn depth(&self) -> (r: usize)
        ensures
            r == self.pending@.len(),
    {
        self.pending.len()
    }
}

} // verus!
