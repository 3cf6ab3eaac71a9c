//! Tables keyed by small numbers (descriptor tables, the task table), kept
//! in increasing order of the key.
use vstd::prelude::*;
use crate::file::{FLike, FileStore, PipeDir, poll_spec};

verus! {

pub struct IdMap<V> {
    pub entries: Vec<(usize, V)>,
}

/// A process's descriptor table: open files by descriptor number.
pub type FdTable = IdMap<FLike>;

/// The keys strictly increase along `s`.
pub open spec fn fds_increasing<V>(s: Seq<(usize, V)>) -> bool {
    forall|i: int, j: int| 0 <= i < j < s.len() ==> (#[trigger] s[i]).0 < (#[trigger] s[j]).0
}

/// `i` holds key `fd` in `s`.
pub open spec fn fd_at<V>(s: Seq<(usize, V)>, fd: usize, i: int) -> bool {
    0 <= i < s.len() && s[i].0 == fd
}

pub open spec fn has_fd<V>(s: Seq<(usize, V)>, fd: usize) -> bool {
    exists|i: int| #[trigger] fd_at(s, fd, i)
}

/// The keys of `s`, in order.
pub open spec fn fd_keys<V>(s: Seq<(usize, V)>) -> Seq<usize> {
    Seq::new(s.len(), |i: int| s[i].0)
}

/// The value under key `k` in `s`, read at the first place that holds it.
pub open spec fn value_at<V>(s: Seq<(usize, V)>, k: usize) -> V {
    s[choose|i: int| fd_at(s, k, i)].1
}

/// `s` as a map from keys to values.
pub open spec fn as_map<V>(s: Seq<(usize, V)>) -> Map<usize, V> {
    Map::new(|k: usize| has_fd(s, k), |k: usize| value_at(s, k))
}

/// In a table with increasing keys a key has one place.
pub proof fn lemma_fd_at_unique<V>(s: Seq<(usize, V)>, k: usize, i: int, j: int)
    requires
        fds_increasing(s),
        fd_at(s, k, i),
        fd_at(s, k, j),
    ensures
        i == j,
{
    if i < j {
        assert(s[i].0 < s[j].0);
    } else if j < i {
        assert(s[j].0 < s[i].0);
    }
}

/// Replacing the value at a place keeps the keys in order and changes the
/// map at that key alone.
pub proof fn lemma_as_map_set<V>(s: Seq<(usize, V)>, i: int, v: V)
    requires
        fds_increasing(s),
        0 <= i < s.len(),
    ensures
        fds_increasing(s.update(i, (s[i].0, v))),
        as_map(s.update(i, (s[i].0, v))) == as_map(s).insert(s[i].0, v),
{
    let k = s[i].0;
    let t = s.update(i, (k, v));
    assert forall|a: int, b: int| 0 <= a < b < t.len() implies (#[trigger] t[a]).0 < (#[trigger] t[b]).0 by {
        assert(s[a].0 < s[b].0);
    }
    let m = as_map(s).insert(k, v);
    assert forall|x: usize| has_fd(t, x) <==> m.dom().contains(x) by {
        if has_fd(t, x) {
            let j = choose|j: int| fd_at(t, x, j);
            if x != k {
                assert(fd_at(s, x, j));
            }
        }
        if has_fd(s, x) {
            let j = choose|j: int| fd_at(s, x, j);
            assert(fd_at(t, x, j));
        }
        if x == k {
            assert(fd_at(t, x, i));
        }
    }
    assert forall|x: usize| has_fd(t, x) implies value_at(t, x) == m[x] by {
        let j = choose|j: int| fd_at(t, x, j);
        if x == k {
            assert(fd_at(t, x, i));
            lemma_fd_at_unique(t, x, i, j);
        } else {
            assert(fd_at(s, x, j));
            assert(has_fd(s, x));
            let j2 = choose|j2: int| fd_at(s, x, j2);
            lemma_fd_at_unique(s, x, j, j2);
        }
    }
    assert(as_map(t) =~= m);
}

/// Keys `from .. r` all present in a table with increasing keys take up at
/// least `r - from` places.
pub proof fn lemma_run_fits<V>(s: Seq<(usize, V)>, from: usize, r: usize)
    requires
        fds_increasing(s),
        from <= r,
        forall|k: usize| from <= k < r ==> has_fd(s, k),
    ensures
        r - from <= s.len(),
{
    if from < r {
        let i = lemma_run_index(s, from, r, (r - from - 1) as nat);
        assert(i < s.len());
    }
}

proof fn lemma_run_index<V>(s: Seq<(usize, V)>, from: usize, r: usize, t: nat) -> (i: int)
    requires
        fds_increasing(s),
        from + t < r,
        forall|k: usize| from <= k < r ==> has_fd(s, k),
    ensures
        fd_at(s, (from + t) as usize, i),
        i >= t,
    decreases t,
{
    let k = (from + t) as usize;
    assert(has_fd(s, k));
    let i = choose|i: int| fd_at(s, k, i);
    if t > 0 {
        let p = lemma_run_index(s, from, r, (t - 1) as nat);
        if i <= p {
            if i < p {
                assert(s[i].0 < s[p].0);
            }
        }
    }
    i
}

impl<V> IdMap<V> {
    pub open spec fn wf(&self) -> bool {
        fds_increasing(self.entries@)
    }

    /// The table as a map from keys to values.
    pub open spec fn view_map(&self) -> Map<usize, V> {
        as_map(self.entries@)
    }

    pub open spec fn view_entries(&self) -> Seq<(usize, V)> {
        self.entries@
    }

    pub fn new() -> (r: Self)
        ensures
            r.wf(),
            r.entries@.len() == 0,
    {
        IdMap { entries: Vec::new() }
    }

    /// Where descriptor `fd` is, if it is open.
    pub fn find(&self, fd: usize) -> (r: Option<usize>)
        requires
            self.wf(),
        ensures
            r matches Some(i) ==> fd_at(self.entries@, fd, i as int),
            r is None ==> !has_fd(self.entries@, fd),
    {
        let mut i: usize = 0;
        while i < self.entries.len()
            invariant
                i <= self.entries@.len(),
                forall|j: int| 0 <= j < i ==> self.entries@[j].0 != fd,
            decreases self.entries@.len() - i,
        {
            if self.entries[i].0 == fd {
                return Some(i);
            }
            i = i + 1;
        }
        proof {
            assert forall|j: int| !#[trigger] fd_at(self.entries@, fd, j) by {}
        }
        None
    }

    /// The value under `fd`, read through the map view.
    pub fn lookup(&self, fd: usize) -> (r: Option<&V>)
        requires
            self.wf(),
        ensures
            r is None <==> !self.view_map().dom().contains(fd),
            r matches Some(f) ==> *f == self.view_map()[fd],
    {
        let r = self.get(fd);
        proof {
            if r is Some {
                let i = choose|i: int| #[trigger] fd_at(self.entries@, fd, i) && *r->0 == self.entries@[i].1;
                let j = choose|j: int| fd_at(self.entries@, fd, j);
                lemma_fd_at_unique(self.entries@, fd, i, j);
            }
        }
        r
    }

    pub fn contains_key(&self, fd: usize) -> (r: bool)
        requires
            self.wf(),
        ensures
            r == has_fd(self.entries@, fd),
    {
        self.find(fd).is_some()
    }

    pub fn len(&self) -> (r: usize)
        ensures
            r == self.entries@.len(),
    {
        self.entries.len()
    }

    /// The lowest descriptor number from `from` on that is not open.
    pub fn free_from(&self, from: usize) -> (r: usize)
        requires
            self.wf(),
            from + self.entries@.len() < usize::MAX,
        ensures
            from <= r,
            !has_fd(self.entries@, r),
            forall|k: usize| from <= k < r ==> has_fd(self.entries@, k),
    {
        let mut c = from;
        let mut i: usize = 0;
        while i < self.entries.len() && self.entries[i].0 < c
            invariant
                i <= self.entries@.len(),
                c == from,
                forall|j: int| 0 <= j < i ==> self.entries@[j].0 < c,
            decreases self.entries@.len() - i,
        {
            i = i + 1;
        }
        while i < self.entries.len() && self.entries[i].0 == c
            invariant
                self.wf(),
                i <= self.entries@.len(),
                from <= c,
                c - from <= i,
                from + self.entries@.len() < usize::MAX,
                forall|j: int| 0 <= j < i ==> self.entries@[j].0 < c,
                i < self.entries@.len() ==> self.entries@[i as int].0 >= c,
                forall|k: usize| from <= k < c ==> has_fd(self.entries@, k),
            decreases self.entries@.len() - i,
        {
            assert(fd_at(self.entries@, c, i as int));
            if i + 1 < self.entries.len() {
                assert(self.entries@[i as int].0 < self.entries@[i + 1].0);
            }
            i = i + 1;
            c = c + 1;
        }
        proof {
            assert forall|j: int| !#[trigger] fd_at(self.entries@, c, j) by {
                if 0 <= j < self.entries@.len() && self.entries@[j].0 == c {
                    if j >= i {
                        assert(i < self.entries@.len());
                        assert(self.entries@[i as int].0 != c);
                        if j > i {
                            assert(self.entries@[i as int].0 < self.entries@[j].0);
                        }
                    }
                }
            }
        }
        c
    }

    /// The file open on `fd`, if any.
    /// Whether the keys strictly increase along the table.
    pub fn in_order(&self) -> (r: bool)
        ensures
            r == self.wf(),
    {
        let n = self.entries.len();
        if n == 0 {
            return true;
        }
        let mut i: usize = 1;
        while i < n
            invariant
                1 <= i <= n,
                n == self.entries@.len(),
                fds_increasing(self.entries@.take(i as int)),
            decreases n - i,
        {
            if self.entries[i - 1].0 >= self.entries[i].0 {
                assert(self.entries@[i - 1].0 >= self.entries@[i as int].0);
                return false;
            }
            proof {
                let s = self.entries@;
                let t = s.take(i as int + 1);
                assert forall|a: int, b: int| 0 <= a < b < t.len() implies (#[trigger] t[a]).0 < (#[trigger] t[b]).0 by {
                    let u = s.take(i as int);
                    if b < i {
                        assert(u[a] == t[a] && u[b] == t[b]);
                    } else if a < i - 1 {
                        assert(u[a] == t[a] && u[i - 1] == s[i - 1]);
                    }
                }
            }
            i += 1;
        }
        assert(self.entries@.take(n as int) =~= self.entries@);
        true
    }

    pub fn get(&self, fd: usize) -> (r: Option<&V>)
        requires
            self.wf(),
        ensures
            r is None <==> !has_fd(self.entries@, fd),
            r matches Some(f) ==> exists|i: int| #[trigger] fd_at(self.entries@, fd, i) && *f == self.entries@[i].1,
    {
        match self.find(fd) {
            Some(i) => Some(&self.entries[i].1),
            None => None,
        }
    }

    /// Opens `fl` on `fd`, replacing what was there; hands back the file
    /// replaced.
    pub fn insert(&mut self, fd: usize, fl: V) -> (r: Option<V>)
        requires
            old(self).wf(),
        ensures
            final(self).wf(),
            r is None <==> !has_fd(old(self).entries@, fd),
            r matches Some(g) ==> exists|i: int|
                #[trigger] fd_at(old(self).entries@, fd, i) && g == old(self).entries@[i].1
                    && final(self).entries@ == old(self).entries@.update(i, (fd, fl)),
            r is None ==> exists|p: int|
                0 <= p <= old(self).entries@.len() && (forall|j: int| 0 <= j < p ==> (#[trigger] old(self).entries@[j]).0 < fd)
                    && (forall|j: int| p <= j < old(self).entries@.len() ==> (#[trigger] old(self).entries@[j]).0 > fd)
                    && final(self).entries@ == old(self).entries@.insert(p, (fd, fl)),
            final(self).view_map() == old(self).view_map().insert(fd, fl),
            r matches Some(g) ==> g == old(self).view_map()[fd],
    {
        let mut p: usize = 0;
        while p < self.entries.len() && self.entries[p].0 < fd
            invariant
                p <= self.entries@.len(),
                forall|j: int| 0 <= j < p ==> self.entries@[j].0 < fd,
            decreases self.entries@.len() - p,
        {
            p = p + 1;
        }
        if p < self.entries.len() && self.entries[p].0 == fd {
            let ghost before = self.entries@;
            let mut slot = (fd, fl);
            std::mem::swap(&mut slot, &mut self.entries[p]);
            assert(self.entries@ == before.update(p as int, (fd, fl)));
            assert(fd_at(before, fd, p as int));
            assert(fds_increasing(self.entries@)) by {
                assert forall|i: int, j: int| 0 <= i < j < self.entries@.len() implies (#[trigger] self.entries@[i]).0 < (#[trigger] self.entries@[j]).0 by {
                    assert(before[i].0 < before[j].0);
                }
            }
            proof {
                let after = self.entries@;
                assert forall|k: usize| #[trigger] has_fd(after, k) == has_fd(before, k) by {
                    if has_fd(after, k) {
                        let j = choose|j: int| fd_at(after, k, j);
                        assert(fd_at(before, k, j));
                    }
                    if has_fd(before, k) {
                        let j = choose|j: int| fd_at(before, k, j);
                        assert(fd_at(after, k, j));
                    }
                }
                assert forall|k: usize| #[trigger] has_fd(after, k) implies value_at(after, k) == (if k == fd { fl } else { value_at(before, k) }) by {
                    let j = choose|j: int| fd_at(after, k, j);
                    let jb = choose|jb: int| fd_at(before, k, jb);
                    assert(fd_at(before, k, j));
                    lemma_fd_at_unique(before, k, j, jb);
                    if k == fd {
                        lemma_fd_at_unique(before, fd, j, p as int);
                    }
                }
                assert(as_map(after) =~= as_map(before).insert(fd, fl));
                let jb = choose|jb: int| fd_at(before, fd, jb);
                lemma_fd_at_unique(before, fd, jb, p as int);
            }
            return Some(slot.1);
        }
        let ghost before = self.entries@;
        proof {
            assert forall|j: int| p <= j < before.len() implies (#[trigger] before[j]).0 > fd by {
                assert(before[p as int].0 > fd);
                if j > p {
                    assert(before[p as int].0 < before[j].0);
                }
            }
            assert forall|i: int| !#[trigger] fd_at(before, fd, i) by {}
        }
        self.entries.insert(p, (fd, fl));
        proof {
            let after = self.entries@;
            assert forall|k: usize| #[trigger] has_fd(after, k) == (has_fd(before, k) || k == fd) by {
                if has_fd(after, k) {
                    let j = choose|j: int| fd_at(after, k, j);
                    if j < p {
                        assert(fd_at(before, k, j));
                    } else if j > p {
                        assert(fd_at(before, k, j - 1));
                    }
                }
                if has_fd(before, k) {
                    let j = choose|j: int| fd_at(before, k, j);
                    if j < p {
                        assert(fd_at(after, k, j));
                    } else {
                        assert(fd_at(after, k, j + 1));
                    }
                }
                if k == fd {
                    assert(fd_at(after, fd, p as int));
                }
            }
        }
        proof {
            let ne = self.entries@;
            assert forall|i: int, j: int| 0 <= i < j < ne.len() implies (#[trigger] ne[i]).0 < (#[trigger] ne[j]).0 by {
                if j < p {
                    assert(ne[i] == before[i]);
                    assert(ne[j] == before[j]);
                } else if j == p {
                    assert(ne[i] == before[i]);
                } else if i < p {
                    assert(ne[i] == before[i]);
                    assert(ne[j] == before[j - 1]);
                } else if i == p {
                    assert(ne[j] == before[j - 1]);
                } else {
                    assert(ne[i] == before[i - 1]);
                    assert(ne[j] == before[j - 1]);
                }
            }
        }
        proof {
            let after = self.entries@;
            assert forall|k: usize| #[trigger] has_fd(after, k) implies value_at(after, k) == (if k == fd { fl } else { value_at(before, k) }) by {
                let j = choose|j: int| fd_at(after, k, j);
                if k == fd {
                    lemma_fd_at_unique(after, fd, j, p as int);
                } else {
                    let jb = choose|jb: int| fd_at(before, k, jb);
                    if j < p {
                        assert(fd_at(before, k, j));
                        lemma_fd_at_unique(before, k, j, jb);
                    } else {
                        assert(j != p);
                        assert(fd_at(before, k, j - 1));
                        lemma_fd_at_unique(before, k, j - 1, jb);
                    }
                }
            }
            assert(as_map(after) =~= as_map(before).insert(fd, fl));
        }
        None
    }

    /// Closes `fd`, handing back the file that was open on it.
    pub fn remove(&mut self, fd: usize) -> (r: Option<V>)
        requires
            old(self).wf(),
        ensures
            final(self).wf(),
            r is None <==> !has_fd(old(self).entries@, fd),
            r is None ==> final(self).entries@ == old(self).entries@,
            r matches Some(g) ==> exists|i: int|
                #[trigger] fd_at(old(self).entries@, fd, i) && g == old(self).entries@[i].1
                    && final(self).entries@ == old(self).entries@.remove(i),
            final(self).view_map() == old(self).view_map().remove(fd),
            r matches Some(g) ==> g == old(self).view_map()[fd],
    {
        let ghost before = self.entries@;
        let r = self.remove_at(fd);
        proof {
            let after = self.entries@;
            if r is Some {
                let g = r->0;
                {
                    let i = choose|i: int| #[trigger] fd_at(before, fd, i) && g == before[i].1 && after == before.remove(i);
                    assert(as_map(after) =~= as_map(before).remove(fd)) by {
                        assert forall|k: usize| #[trigger] has_fd(after, k) == (has_fd(before, k) && k != fd) by {
                            if has_fd(after, k) {
                                let j = choose|j: int| fd_at(after, k, j);
                                if j < i {
                                    assert(fd_at(before, k, j));
                                } else {
                                    assert(fd_at(before, k, j + 1));
                                }
                                if k == fd {
                                    if j < i {
                                        lemma_fd_at_unique(before, fd, j, i);
                                    } else {
                                        lemma_fd_at_unique(before, fd, j + 1, i);
                                    }
                                }
                            }
                            if has_fd(before, k) && k != fd {
                                let j = choose|j: int| fd_at(before, k, j);
                                if j < i {
                                    assert(fd_at(after, k, j));
                                } else {
                                    assert(j != i);
                                    assert(fd_at(after, k, j - 1));
                                }
                            }
                        }
                        assert forall|k: usize| #[trigger] has_fd(after, k) implies value_at(after, k) == value_at(before, k) by {
                            let j = choose|j: int| fd_at(after, k, j);
                            let jb = choose|jb: int| fd_at(before, k, jb);
                            if j < i {
                                assert(fd_at(before, k, j));
                                lemma_fd_at_unique(before, k, j, jb);
                            } else {
                                assert(fd_at(before, k, j + 1));
                                lemma_fd_at_unique(before, k, j + 1, jb);
                            }
                        }
                    }
                    let jb = choose|jb: int| fd_at(before, fd, jb);
                    lemma_fd_at_unique(before, fd, i, jb);
                }
            } else {
                assert(as_map(after) =~= as_map(before).remove(fd));
            }
        }
        r
    }

    fn remove_at(&mut self, fd: usize) -> (r: Option<V>)
        requires
            old(self).wf(),
        ensures
            final(self).wf(),
            r is None <==> !has_fd(old(self).entries@, fd),
            r is None ==> final(self).entries@ == old(self).entries@,
            r matches Some(g) ==> exists|i: int|
                #[trigger] fd_at(old(self).entries@, fd, i) && g == old(self).entries@[i].1
                    && final(self).entries@ == old(self).entries@.remove(i),
    {
        match self.find(fd) {
            Some(i) => {
                let ghost before = self.entries@;
                let (_, g) = self.entries.remove(i);
                proof {
                    let ne = self.entries@;
                    assert forall|a: int, b: int| 0 <= a < b < ne.len() implies (#[trigger] ne[a]).0 < (#[trigger] ne[b]).0 by {
                        if b < i {
                        } else if a < i {
                            assert(ne[b] == before[b + 1]);
                        } else {
                            assert(ne[a] == before[a + 1]);
                            assert(ne[b] == before[b + 1]);
                        }
                    }
                }
                Some(g)
            },
            None => None,
        }
    }

    /// The open descriptor numbers, in increasing order.
    pub fn keys(&self) -> (r: Vec<usize>)
        ensures
            r@ == fd_keys(self.entries@),
    {
        let mut out: Vec<usize> = Vec::new();
        let mut i: usize = 0;
        while i < self.entries.len()
            invariant
                i <= self.entries@.len(),
                out@ == fd_keys(self.entries@).take(i as int),
            decreases self.entries@.len() - i,
        {
            out.push(self.entries[i].0);
            i = i + 1;
            assert(out@ =~= fd_keys(self.entries@).take(i as int));
        }
        assert(out@ =~= fd_keys(self.entries@));
        out
    }
}

/// A descriptor the audit reports: a pipe end that polls as failed, or a
/// file with no path.
pub open spec fn leaky(fl: FLike, store: &FileStore) -> bool {
    match fl {
        FLike::Pipe(_) => poll_spec(&fl, store).2,
        FLike::File(f) => f.path@.len() == 0,
        FLike::Ep(_) => false,
    }
}

/// The numbers strictly between `p` and `fd`, in order.
pub open spec fn gap_between(p: usize, fd: usize) -> Seq<usize> {
    if fd > p + 1 {
        Seq::new((fd - p - 1) as nat, |i: int| (p + 1 + i) as usize)
    } else {
        Seq::empty()
    }
}

/// What the audit reports over `s`: the numbers missing between
/// consecutive descriptors, and each leaky descriptor, in order.
pub open spec fn audit_spec(s: Seq<(usize, FLike)>, store: &FileStore) -> Seq<usize>
    decreases s.len(),
{
    if s.len() == 0 {
        Seq::empty()
    } else {
        let d = s.drop_last();
        let gaps = if d.len() > 0 { gap_between(d.last().0, s.last().0) } else { Seq::empty() };
        audit_spec(d, store) + gaps + if leaky(s.last().1, store) { seq![s.last().0] } else { Seq::empty() }
    }
}

/// Lists the descriptor numbers missing between open ones and the open
/// ones that look leaked, in increasing order.
pub fn audit_fd_table(files: &FdTable, store: &FileStore) -> (r: Vec<usize>)
    requires
        files.wf(),
        forall|i: int| 0 <= i < files.entries@.len() ==> (#[trigger] files.entries@[i]).1.in_store(store),
    ensures
        r@ == audit_spec(files.entries@, store),
{
    let ghost s = files.entries@;
    let mut leaks: Vec<usize> = Vec::new();
    let mut prev: Option<usize> = None;
    let mut i: usize = 0;
    while i < files.entries.len()
        invariant
            s == files.entries@,
            fds_increasing(s),
            forall|k: int| 0 <= k < s.len() ==> (#[trigger] s[k]).1.in_store(store),
            i <= s.len(),
            leaks@ == audit_spec(s.take(i as int), store),
            i == 0 ==> prev is None,
            i > 0 ==> prev == Some(s[i - 1].0),
        decreases s.len() - i,
    {
        let fd = files.entries[i].0;
        let ghost before = leaks@;
        proof {
            assert(s.take(i + 1).drop_last() =~= s.take(i as int));
            assert(s.take(i + 1).last() == s[i as int]);
        }
        if let Some(p) = prev {
            assert(p < fd) by {
                assert(s[i - 1].0 < s[i as int].0);
            }
            if fd > p + 1 {
                let mut g = p + 1;
                while g < fd
                    invariant
                        p + 1 <= g <= fd,
                        leaks@ == before + gap_between(p, fd).take(g - p - 1),
                    decreases fd - g,
                {
                    leaks.push(g);
                    g = g + 1;
                    assert(leaks@ =~= before + gap_between(p, fd).take(g - p - 1));
                }
                assert(gap_between(p, fd).take(fd - p - 1) =~= gap_between(p, fd));
            } else {
                assert(gap_between(p, fd) =~= Seq::<usize>::empty());
                assert(leaks@ =~= before + gap_between(p, fd));
            }
        } else {
            assert(leaks@ =~= before + Seq::<usize>::empty());
        }
        let ghost mid = leaks@;
        let fl = &files.entries[i].1;
        let leak = match fl {
            FLike::Pipe(_) => {
                let (_, _, e) = fl.poll(store);
                e
            },
            FLike::File(fh) => fh.path.len() == 0,
            FLike::Ep(_) => false,
        };
        assert(leak == leaky(s[i as int].1, store));
        if leak {
            leaks.push(fd);
        }
        proof {
            let gaps = if i > 0 { gap_between(s[i - 1].0, fd) } else { Seq::<usize>::empty() };
            assert(mid == before + gaps);
            assert(leaks@ =~= before + gaps + if leak { seq![fd] } else { Seq::<usize>::empty() });
        }
        prev = Some(fd);
        i = i + 1;
    }
    assert(s.take(s.len() as int) =~= s);
    leaks
}

} // verus!
