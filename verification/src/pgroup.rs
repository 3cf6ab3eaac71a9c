//! Process groups: members, a leader, a session and the foreground flag.
use vstd::prelude::*;
use crate::pagecache::{retain_without, without};
use crate::task::{TaskTable, signaled};

verus! {

pub struct ProcessGroup {
    pub pgid: i32,
    pub leader: usize,
    pub members: Vec<usize>,
    pub session_id: usize,
    pub foreground: bool,
}

proof fn lemma_without_absent(s: Seq<usize>, x: usize)
    requires
        !s.contains(x),
    ensures
        without(s, x) == s,
    decreases s.len(),
{
    if s.len() > 0 {
        assert(!s.drop_last().contains(x)) by {
            if s.drop_last().contains(x) {
                let i = choose|i: int| 0 <= i < s.drop_last().len() && s.drop_last()[i] == x;
                assert(s[i] == x);
            }
        }
        lemma_without_absent(s.drop_last(), x);
        assert(s.last() != x);
        assert(s.drop_last().push(s.last()) =~= s);
    }
}

proof fn lemma_without_present(s: Seq<usize>, x: usize)
    requires
        s.contains(x),
    ensures
        without(s, x).len() < s.len(),
    decreases s.len(),
{
    lemma_without_le(s.drop_last(), x);
    if s.last() != x {
        assert(s.drop_last().contains(x)) by {
            let i = choose|i: int| 0 <= i < s.len() && s[i] == x;
            assert(i < s.len() - 1);
            assert(s.drop_last()[i] == x);
        }
        lemma_without_present(s.drop_last(), x);
    }
}

proof fn lemma_without_le(s: Seq<usize>, x: usize)
    ensures
        without(s, x).len() <= s.len(),
    decreases s.len(),
{
    if s.len() > 0 {
        lemma_without_le(s.drop_last(), x);
    }
}

impl ProcessGroup {
    /// No member is listed twice.
    pub open spec fn wf(&self) -> bool {
        self.members@.no_duplicates()
    }

    pub fn new(pgid: i32, leader: usize, session: usize) -> (r: Self)
        ensures
            r.wf(),
            r.pgid == pgid,
            r.leader == leader,
            r.members@ == seq![leader],
            r.session_id == session,
            !r.foreground,
    {
        let mut members: Vec<usize> = Vec::new();
        members.push(leader);
        ProcessGroup { pgid, leader, members, session_id: session, foreground: false }
    }

    /// Adds `pid` unless it is a member already.
    pub fn add_member(&mut self, pid: usize)
        requires
            old(self).wf(),
        ensures
            final(self).wf(),
            final(self).members@ == if old(self).members@.contains(pid) { old(self).members@ } else { old(self).members@.push(pid) },
            final(self).pgid == old(self).pgid,
            final(self).leader == old(self).leader,
            final(self).session_id == old(self).session_id,
            final(self).foreground == old(self).foreground,
    {
        let mut i: usize = 0;
        while i < self.members.len()
            invariant
                i <= self.members@.len(),
                self.wf(),
                self.members@ == old(self).members@,
                forall|j: int| 0 <= j < i ==> self.members@[j] != pid,
            decreases self.members@.len() - i,
        {
            if self.members[i] == pid {
                assert(self.members@.contains(pid));
                return;
            }
            i = i + 1;
        }
        self.members.push(pid);
        proof {
            let m = self.members@;
            assert forall|a: int, b: int| 0 <= a < m.len() && 0 <= b < m.len() && a != b implies m[a] != m[b] by {
                if a < m.len() - 1 && b < m.len() - 1 {
                    assert(old(self).members@[a] != old(self).members@[b]);
                }
            }
        }
    }

    /// Drops `pid`; true if it was a member.
    pub fn remove_member(&mut self, pid: usize) -> (r: bool)
        requires
            old(self).wf(),
        ensures
            final(self).wf(),
            r == old(self).members@.contains(pid),
            final(self).members@ == without(old(self).members@, pid),
            final(self).pgid == old(self).pgid,
            final(self).leader == old(self).leader,
            final(self).session_id == old(self).session_id,
            final(self).foreground == old(self).foreground,
    {
        let before = self.members.len();
        let m = retain_without(&self.members, pid);
        self.members = m;
        proof {
            if old(self).members@.contains(pid) {
                lemma_without_present(old(self).members@, pid);
            } else {
                lemma_without_absent(old(self).members@, pid);
            }
            lemma_without_nodup(old(self).members@, pid);
        }
        self.members.len() < before
    }

    pub fn is_empty(&self) -> (r: bool)
        ensures
            r == (self.members@.len() == 0),
    {
        self.members.len() == 0
    }

    pub fn member_count(&self) -> (r: usize)
        ensures
            r == self.members@.len(),
    {
        self.members.len()
    }

    pub fn is_leader(&self, pid: usize) -> (r: bool)
        ensures
            r == (self.leader == pid),
    {
        self.leader == pid
    }

    pub fn set_foreground(&mut self, fg: bool)
        ensures
            final(self).foreground == fg,
            final(self).members == old(self).members,
            final(self).pgid == old(self).pgid,
            final(self).leader == old(self).leader,
            final(self).session_id == old(self).session_id,
    {
        self.foreground = fg;
    }

    pub fn is_foreground(&self) -> (r: bool)
        ensures
            r == self.foreground,
    {
        self.foreground
    }

    /// Queues `signo` on every member that is a task, sent by the leader.
    pub fn broadcast_signal(&self, signo: i32, tasks: &mut TaskTable)
        requires
            self.wf(),
            old(tasks).wf(),
        ensures
            final(tasks).wf(),
            final(tasks).seq == old(tasks).seq,
            final(tasks).root == old(tasks).root,
            final(tasks).tasks().dom() == old(tasks).tasks().dom(),
            forall|k: usize| #[trigger] final(tasks).tasks().contains_key(k) ==> if self.members@.contains(k) {
                signaled(old(tasks).tasks()[k], final(tasks).tasks()[k], signo, self.leader as isize)
            } else {
                final(tasks).tasks()[k] == old(tasks).tasks()[k]
            },
    {
        let sender = self.leader as isize;
        let ghost m0 = tasks.tasks();
        let mut i: usize = 0;
        while i < self.members.len()
            invariant
                self.wf(),
                tasks.wf(),
                tasks.seq == old(tasks).seq,
                tasks.root == old(tasks).root,
                m0 == old(tasks).tasks(),
                sender == self.leader as isize,
                i <= self.members@.len(),
                tasks.tasks().dom() == m0.dom(),
                forall|k: usize| #[trigger] tasks.tasks().contains_key(k) ==> if self.members@.take(i as int).contains(k) {
                    signaled(m0[k], tasks.tasks()[k], signo, sender)
                } else {
                    tasks.tasks()[k] == m0[k]
                },
            decreases self.members@.len() - i,
        {
            let pid = self.members[i];
            let ghost prev = tasks.tasks();
            proof {
                assert(self.members@.take(i + 1) =~= self.members@.take(i as int).push(pid));
                assert(!self.members@.take(i as int).contains(pid)) by {
                    if self.members@.take(i as int).contains(pid) {
                        let q = choose|q: int| 0 <= q < self.members@.take(i as int).len() && #[trigger] self.members@.take(i as int)[q] == pid;
                        assert(self.members@[q] == self.members@[i as int]);
                    }
                }
            }
            let _ = tasks.signal_task(pid, signo, sender);
            proof {
                assert forall|k: usize| #[trigger] tasks.tasks().contains_key(k) implies (if self.members@.take(i + 1).contains(k) {
                    signaled(m0[k], tasks.tasks()[k], signo, sender)
                } else {
                    tasks.tasks()[k] == m0[k]
                }) by {
                    if k != pid {
                        assert(tasks.tasks()[k] == prev[k]);
                        if self.members@.take(i + 1).contains(k) {
                            let q = choose|q: int| 0 <= q < self.members@.take(i + 1).len() && #[trigger] self.members@.take(i + 1)[q] == k;
                            assert(self.members@.take(i as int)[q] == k);
                        } else {
                            assert forall|q: int| 0 <= q < self.members@.take(i as int).len() implies self.members@.take(i as int)[q] != k by {
                                assert(self.members@.take(i + 1)[q] == self.members@.take(i as int)[q]);
                            }
                        }
                    } else {
                        assert(self.members@.take(i + 1)[i as int] == pid);
                    }
                }
            }
            i = i + 1;
        }
        proof {
            assert(self.members@.take(self.members@.len() as int) =~= self.members@);
        }
    }
}

proof fn lemma_without_nodup(s: Seq<usize>, x: usize)
    requires
        s.no_duplicates(),
    ensures
        without(s, x).no_duplicates(),
        forall|y: usize| without(s, x).contains(y) ==> s.contains(y),
    decreases s.len(),
{
    if s.len() > 0 {
        let d = s.drop_last();
        assert(d.no_duplicates()) by {
            assert forall|a: int, b: int| 0 <= a < d.len() && 0 <= b < d.len() && a != b implies d[a] != d[b] by {
                assert(s[a] != s[b]);
            }
        }
        lemma_without_nodup(d, x);
        let r = without(d, x);
        assert forall|y: usize| without(s, x).contains(y) implies s.contains(y) by {
            if r.contains(y) {
                assert(d.contains(y));
                let i = choose|i: int| 0 <= i < d.len() && d[i] == y;
                assert(s[i] == y);
            } else {
                assert(s[s.len() - 1] == y);
            }
        }
        if s.last() != x {
            assert(!r.contains(s.last())) by {
                if r.contains(s.last()) {
                    assert(d.contains(s.last()));
                    let i = choose|i: int| 0 <= i < d.len() && d[i] == s.last();
                    assert(s[i] == s[s.len() - 1]);
                }
            }
            let t = r.push(s.last());
            assert forall|a: int, b: int| 0 <= a < t.len() && 0 <= b < t.len() && a != b implies t[a] != t[b] by {
                if a == t.len() - 1 {
                    assert(r.contains(t[b]) ==> t[b] != s.last());
                    if b < r.len() {
                        assert(r.contains(r[b]));
                    }
                } else if b == t.len() - 1 {
                    if a < r.len() {
                        assert(r.contains(r[a]));
                    }
                }
            }
        }
    }
}

} // verus!
