//! The mount table: prefixes of paths bound to device names, resolved by
//! longest match, recursively, down to a canonical path. Paths are byte
//! strings.
use vstd::prelude::*;

verus! {

pub const SLASH: u8 = 0x2f;
pub const COLON: u8 = 0x3a;

pub struct MountEntry {
    pub prefix: Vec<u8>,
    pub target: Vec<u8>,
}

impl View for MountEntry {
    type V = (Seq<u8>, Seq<u8>);

    open spec fn view(&self) -> (Seq<u8>, Seq<u8>) {
        (self.prefix@, self.target@)
    }
}

impl MountEntry {
    pub fn copy_entry(&self) -> (r: MountEntry)
        ensures
            r@ == self@,
    {
        MountEntry { prefix: copy_bytes(self.prefix.as_slice()), target: copy_bytes(self.target.as_slice()) }
    }
}

pub fn copy_bytes(b: &[u8]) -> (r: Vec<u8>)
    ensures
        r@ == b@,
{
    let mut out: Vec<u8> = Vec::new();
    let mut i: usize = 0;
    while i < b.len()
        invariant
            i <= b@.len(),
            out@ == b@.take(i as int),
        decreases b@.len() - i,
    {
        out.push(b[i]);
        i = i + 1;
        assert(out@ =~= b@.take(i as int));
    }
    assert(out@ =~= b@);
    out
}

pub fn bytes_equal(a: &[u8], b: &[u8]) -> (r: bool)
    ensures
        r == (a@ == b@),
{
    if a.len() != b.len() {
        return false;
    }
    let mut i: usize = 0;
    while i < a.len()
        invariant
            a@.len() == b@.len(),
            i <= a@.len(),
            forall|j: int| 0 <= j < i ==> a@[j] == b@[j],
        decreases a@.len() - i,
    {
        if a[i] != b[i] {
            return false;
        }
        i = i + 1;
    }
    assert(a@ =~= b@);
    true
}

/// `p` is a non-empty prefix of `path`.
pub open spec fn mounts_over(p: Seq<u8>, path: Seq<u8>) -> bool {
    0 < p.len() <= path.len() && path.take(p.len() as int) == p
}

/// Entry `i` is the longest prefix of `path`, the first of that length.
pub open spec fn best_mount(es: Seq<(Seq<u8>, Seq<u8>)>, path: Seq<u8>, i: int) -> bool {
    &&& 0 <= i < es.len()
    &&& mounts_over(es[i].0, path)
    &&& forall|j: int|
        0 <= j < es.len() && #[trigger] mounts_over(es[j].0, path) ==> es[j].0.len() <= es[i].0.len() && (
        es[j].0.len() == es[i].0.len() ==> i <= j)
}

pub open spec fn has_mount(es: Seq<(Seq<u8>, Seq<u8>)>, path: Seq<u8>) -> bool {
    exists|i: int| 0 <= i < es.len() && #[trigger] mounts_over(es[i].0, path)
}

/// `path` with every slash that follows a slash left out.
pub open spec fn collapse_slashes(path: Seq<u8>) -> Seq<u8>
    decreases path.len(),
{
    if path.len() == 0 {
        path
    } else {
        let c = collapse_slashes(path.drop_last());
        if path.last() == SLASH && path.len() >= 2 && path[path.len() - 2] == SLASH {
            c
        } else {
            c.push(path.last())
        }
    }
}

/// What `path` resolves to: the longest mounted prefix is replaced by its
/// target and a colon, and the rest is resolved again; a path with no
/// mounted prefix is canonical with its repeated slashes collapsed.
pub open spec fn resolve_spec(es: Seq<(Seq<u8>, Seq<u8>)>, path: Seq<u8>) -> Seq<u8>
    decreases path.len(),
{
    if exists|i: int| best_mount(es, path, i) {
        let i = choose|i: int| best_mount(es, path, i);
        es[i].1 + seq![COLON] + resolve_spec(es, path.skip(es[i].0.len() as int))
    } else {
        collapse_slashes(path)
    }
}

/// Longest prefixes first; entries of one length in the order they came.
pub open spec fn longest_first(es: Seq<(Seq<u8>, Seq<u8>)>) -> bool {
    forall|i: int, j: int| 0 <= i < j < es.len() ==> (#[trigger] es[i]).0.len() >= (#[trigger] es[j]).0.len()
}

/// Where an entry with a prefix of length `n` goes: after every entry
/// whose prefix is at least as long.
pub open spec fn bind_pos(es: Seq<(Seq<u8>, Seq<u8>)>, n: nat, p: int) -> bool {
    &&& 0 <= p <= es.len()
    &&& forall|i: int| 0 <= i < p ==> (#[trigger] es[i]).0.len() >= n
    &&& forall|i: int| p <= i < es.len() ==> (#[trigger] es[i]).0.len() < n
}

pub open spec fn has_entry(es: Seq<(Seq<u8>, Seq<u8>)>, e: (Seq<u8>, Seq<u8>)) -> bool {
    exists|i: int| 0 <= i < es.len() && #[trigger] es[i] == e
}

/// The entries whose prefix is not `p`, in order.
pub open spec fn without_prefix(es: Seq<(Seq<u8>, Seq<u8>)>, p: Seq<u8>) -> Seq<(Seq<u8>, Seq<u8>)>
    decreases es.len(),
{
    if es.len() == 0 {
        es
    } else {
        let w = without_prefix(es.drop_last(), p);
        if es.last().0 == p { w } else { w.push(es.last()) }
    }
}

proof fn lemma_best_unique(es: Seq<(Seq<u8>, Seq<u8>)>, path: Seq<u8>, i: int, j: int)
    requires
        best_mount(es, path, i),
        best_mount(es, path, j),
    ensures
        i == j,
{
    assert(mounts_over(es[j].0, path));
    assert(mounts_over(es[i].0, path));
}

pub struct MountTable {
    pub entries: Vec<MountEntry>,
}

impl MountTable {
    pub open spec fn view_entries(&self) -> Seq<(Seq<u8>, Seq<u8>)> {
        Seq::new(self.entries@.len(), |i: int| self.entries@[i]@)
    }

    pub fn new() -> (r: Self)
        ensures
            r.view_entries() == Seq::<(Seq<u8>, Seq<u8>)>::empty(),
    {
        let r = MountTable { entries: Vec::new() };
        assert(r.view_entries() =~= Seq::<(Seq<u8>, Seq<u8>)>::empty());
        r
    }

    /// The longest mounted prefix of `path`, if any.
    fn best_index(&self, path: &[u8]) -> (r: Option<usize>)
        ensures
            r matches Some(i) ==> best_mount(self.view_entries(), path@, i as int),
            r is None ==> !has_mount(self.view_entries(), path@),
    {
        let ghost es = self.view_entries();
        let mut best: Option<usize> = None;
        let mut best_len: usize = 0;
        let mut idx: usize = 0;
        while idx < self.entries.len()
            invariant
                es == self.view_entries(),
                idx <= es.len(),
                best is None ==> best_len == 0 && forall|j: int| 0 <= j < idx ==> !#[trigger] mounts_over(es[j].0, path@),
                best matches Some(b) ==> {
                    &&& b < idx
                    &&& best_len == es[b as int].0.len()
                    &&& mounts_over(es[b as int].0, path@)
                    &&& forall|j: int|
                        0 <= j < idx && #[trigger] mounts_over(es[j].0, path@) ==> es[j].0.len() <= best_len && (es[j].0.len()
                            == best_len ==> b <= j)
                },
            decreases es.len() - idx,
        {
            let m = &self.entries[idx];
            assert(es[idx as int] == m@);
            let plen = m.prefix.len();
            if plen != 0 && plen <= path.len() {
                let mut matches = true;
                let mut j: usize = 0;
                while j < plen
                    invariant_except_break
                        matches,
                    invariant
                        plen == m.prefix@.len(),
                        plen <= path@.len(),
                        j <= plen,
                        forall|q: int| 0 <= q < j ==> m.prefix@[q] == path@[q],
                    ensures
                        matches <==> path@.take(plen as int) =~= m.prefix@,
                    decreases plen - j,
                {
                    if m.prefix[j] != path[j] {
                        matches = false;
                        assert(path@.take(plen as int)[j as int] != m.prefix@[j as int]);
                        break;
                    }
                    j = j + 1;
                }
                if matches && plen > best_len {
                    best_len = plen;
                    best = Some(idx);
                }
            }
            idx = idx + 1;
        }
        best
    }

    /// Rewrites `path` through the mount table: the longest mounted prefix
    /// becomes its target and a colon, and the rest is resolved in turn.
    pub fn resolve(&self, path: &[u8]) -> (r: Result<Vec<u8>, &'static str>)
        ensures
            r matches Ok(v) && v@ == resolve_spec(self.view_entries(), path@),
        decreases path@.len(),
    {
        let ghost es = self.view_entries();
        match self.best_index(path) {
            Some(idx) => {
                let m = &self.entries[idx];
                assert(es[idx as int] == m@);
                let rest = &path[m.prefix.len()..path.len()];
                let dev = copy_bytes(m.target.as_slice());
                let sub = match self.resolve(rest) {
                    Ok(s) => s,
                    Err(e) => {
                        return Err(e);
                    },
                };
                let mut result: Vec<u8> = dev;
                result.push(COLON);
                let mut k: usize = 0;
                let ghost head = result@;
                while k < sub.len()
                    invariant
                        k <= sub@.len(),
                        result@ == head + sub@.take(k as int),
                    decreases sub@.len() - k,
                {
                    result.push(sub[k]);
                    k = k + 1;
                    assert(result@ =~= head + sub@.take(k as int));
                }
                proof {
                    assert(sub@.take(sub@.len() as int) =~= sub@);
                    let c = choose|i: int| best_mount(es, path@, i);
                    lemma_best_unique(es, path@, c, idx as int);
                    assert(rest@ =~= path@.skip(es[idx as int].0.len() as int));
                    assert(result@ =~= es[idx as int].1 + seq![COLON] + sub@);
                    assert(exists|i: int| best_mount(es, path@, i));
                    assert(resolve_spec(es, path@) == es[idx as int].1 + seq![COLON] + resolve_spec(es, rest@));
                }
                Ok(result)
            },
            None => {
                proof {
                    if exists|i: int| best_mount(es, path@, i) {
                        let c = choose|i: int| best_mount(es, path@, i);
                        assert(mounts_over(es[c].0, path@));
                    }
                }
                let mut canonical = collapse(path);
                proof {
                    lemma_collapse_empty(path@);
                    assert(resolve_spec(es, path@) == collapse_slashes(path@));
                }
                if canonical.len() == 0 {
                    canonical = copy_bytes(path);
                    assert(path@ =~= collapse_slashes(path@));
                }
                Ok(canonical)
            },
        }
    }
}

impl MountTable {
    /// Binds `pfx` to `tgt`, once: a binding that is already there is left
    /// alone, a new one goes after every prefix at least as long.
    pub fn bind(&mut self, pfx: &[u8], tgt: &[u8])
        requires
            longest_first(old(self).view_entries()),
        ensures
            longest_first(final(self).view_entries()),
            has_entry(old(self).view_entries(), (pfx@, tgt@)) ==> final(self).view_entries() == old(self).view_entries(),
            !has_entry(old(self).view_entries(), (pfx@, tgt@)) ==> exists|p: int|
                #[trigger] bind_pos(old(self).view_entries(), pfx@.len(), p)
                    && final(self).view_entries() == old(self).view_entries().insert(p, (pfx@, tgt@)),
    {
        let ghost es = self.view_entries();
        let mut i: usize = 0;
        while i < self.entries.len()
            invariant
                es == self.view_entries(),
                longest_first(es),
                i <= es.len(),
                forall|j: int| 0 <= j < i ==> es[j] != (pfx@, tgt@),
            decreases es.len() - i,
        {
            assert(es[i as int] == self.entries@[i as int]@);
            if bytes_equal(self.entries[i].prefix.as_slice(), pfx) && bytes_equal(self.entries[i].target.as_slice(), tgt) {
                assert(es[i as int] == (pfx@, tgt@));
                return;
            }
            i = i + 1;
        }
        assert(!has_entry(es, (pfx@, tgt@)));
        let mut p: usize = 0;
        while p < self.entries.len() && self.entries[p].prefix.len() >= pfx.len()
            invariant
                es == self.view_entries(),
                p <= es.len(),
                forall|j: int| 0 <= j < p ==> (#[trigger] es[j]).0.len() >= pfx@.len(),
            decreases es.len() - p,
        {
            assert(es[p as int] == self.entries@[p as int]@);
            p = p + 1;
        }
        proof {
            if p < es.len() {
                assert(es[p as int] == self.entries@[p as int]@);
                assert forall|j: int| p <= j < es.len() implies (#[trigger] es[j]).0.len() < pfx@.len() by {
                    assert(es[p as int].0.len() >= es[j].0.len());
                }
            }
            assert(bind_pos(es, pfx@.len(), p as int));
        }
        let e = MountEntry { prefix: copy_bytes(pfx), target: copy_bytes(tgt) };
        self.entries.insert(p, e);
        proof {
            let ne = es.insert(p as int, (pfx@, tgt@));
            assert(self.view_entries() =~= ne);
            assert forall|a: int, b: int| 0 <= a < b < ne.len() implies (#[trigger] ne[a]).0.len() >= (#[trigger] ne[b]).0.len() by {
                if b < p {
                } else if b == p {
                    assert(ne[a] == es[a]);
                } else if a < p {
                    assert(ne[b] == es[b - 1]);
                } else if a == p {
                    assert(ne[b] == es[b - 1]);
                } else {
                    assert(ne[a] == es[a - 1]);
                    assert(ne[b] == es[b - 1]);
                }
            }
        }
    }

    /// Removes every binding of `pfx`; says whether there was one.
    pub fn unmount(&mut self, pfx: &[u8]) -> (r: bool)
        ensures
            final(self).view_entries() == without_prefix(old(self).view_entries(), pfx@),
            r == exists|i: int| 0 <= i < old(self).view_entries().len() && (#[trigger] old(self).view_entries()[i]).0 == pfx@,
            longest_first(old(self).view_entries()) ==> longest_first(final(self).view_entries()),
    {
        let ghost s = self.view_entries();
        let before = self.entries.len();
        let ghost mut p: int = 0;
        let mut i: usize = 0;
        while i < self.entries.len()
            invariant
                s == old(self).view_entries(),
                before == s.len(),
                0 <= p <= s.len(),
                self.view_entries() == without_prefix(s.take(p), pfx@) + s.skip(p),
                i == without_prefix(s.take(p), pfx@).len(),
            decreases self.entries@.len() - i,
        {
            proof {
                assert(s.take(p + 1).drop_last() =~= s.take(p));
                assert(s.take(p + 1).last() == s[p]);
                assert(self.view_entries()[i as int] == s[p]);
                assert(s.skip(p) =~= seq![s[p]] + s.skip(p + 1));
            }
            if bytes_equal(self.entries[i].prefix.as_slice(), pfx) {
                let ghost prev = self.view_entries();
                self.entries.remove(i);
                proof {
                    assert(self.view_entries() =~= prev.remove(i as int));
                    assert(self.view_entries() =~= without_prefix(s.take(p + 1), pfx@) + s.skip(p + 1));
                    p = p + 1;
                }
            } else {
                i = i + 1;
                proof {
                    assert(self.view_entries() =~= without_prefix(s.take(p + 1), pfx@) + s.skip(p + 1));
                    p = p + 1;
                }
            }
        }
        proof {
            assert(p == s.len()) by {
                if p < s.len() {
                    assert(self.view_entries().len() > i);
                }
            }
            assert(s.take(p) =~= s);
            assert(s.skip(p) =~= Seq::<(Seq<u8>, Seq<u8>)>::empty());
            assert(self.view_entries() =~= without_prefix(s, pfx@));
            lemma_without_prefix(s, pfx@);
            if longest_first(s) {
                lemma_without_prefix_sorted(s, pfx@);
            }
        }
        self.entries.len() < before
    }

    /// Copies of the bindings, in table order.
    pub fn list_mounts(&self) -> (r: Vec<(Vec<u8>, Vec<u8>)>)
        ensures
            r@.len() == self.view_entries().len(),
            forall|i: int| 0 <= i < r@.len() ==> ((#[trigger] r@[i]).0@, r@[i].1@) == self.view_entries()[i],
    {
        let mut out: Vec<(Vec<u8>, Vec<u8>)> = Vec::new();
        let mut i: usize = 0;
        while i < self.entries.len()
            invariant
                i <= self.entries@.len(),
                out@.len() == i,
                forall|j: int| 0 <= j < i ==> ((#[trigger] out@[j]).0@, out@[j].1@) == self.view_entries()[j],
            decreases self.entries@.len() - i,
        {
            let m = &self.entries[i];
            out.push((copy_bytes(m.prefix.as_slice()), copy_bytes(m.target.as_slice())));
            i = i + 1;
        }
        out
    }

    /// A copy of the binding with the longest mounted prefix of `path`.
    pub fn find_mount(&self, path: &[u8]) -> (r: Option<MountEntry>)
        ensures
            r is None <==> !has_mount(self.view_entries(), path@),
            r matches Some(e) ==> exists|i: int| #[trigger] best_mount(self.view_entries(), path@, i) && e@ == self.view_entries()[i],
    {
        match self.best_index(path) {
            Some(i) => {
                let e = self.entries[i].copy_entry();
                assert(e@ == self.view_entries()[i as int]);
                assert(best_mount(self.view_entries(), path@, i as int));
                Some(e)
            },
            None => None,
        }
    }

    pub fn mount_count(&self) -> (r: usize)
        ensures
            r == self.view_entries().len(),
    {
        self.entries.len()
    }

    pub fn has_prefix(&self, pfx: &[u8]) -> (r: bool)
        ensures
            r == exists|i: int| 0 <= i < self.view_entries().len() && (#[trigger] self.view_entries()[i]).0 == pfx@,
    {
        let mut i: usize = 0;
        while i < self.entries.len()
            invariant
                i <= self.entries@.len(),
                forall|j: int| 0 <= j < i ==> (#[trigger] self.view_entries()[j]).0 != pfx@,
            decreases self.entries@.len() - i,
        {
            assert(self.view_entries()[i as int] == self.entries@[i as int]@);
            if bytes_equal(self.entries[i].prefix.as_slice(), pfx) {
                return true;
            }
            i = i + 1;
        }
        false
    }
}

/// Every entry kept by `without_prefix` is an entry of `es` at or after
/// the place it is kept at, and the matching ones are gone.
proof fn lemma_without_prefix(es: Seq<(Seq<u8>, Seq<u8>)>, p: Seq<u8>)
    ensures
        without_prefix(es, p).len() <= es.len(),
        without_prefix(es, p).len() == es.len() <==> !(exists|i: int| 0 <= i < es.len() && (#[trigger] es[i]).0 == p),
        forall|k: int| #![trigger without_prefix(es, p)[k]] 0 <= k < without_prefix(es, p).len() ==> exists|j: int| k <= j < es.len() && #[trigger] es[j] == without_prefix(es, p)[k],
    decreases es.len(),
{
    if es.len() > 0 {
        let d = es.drop_last();
        lemma_without_prefix(d, p);
        let w = without_prefix(d, p);
        assert forall|k: int| #![trigger without_prefix(es, p)[k]] 0 <= k < without_prefix(es, p).len() implies exists|j: int| k <= j < es.len() && #[trigger] es[j] == without_prefix(es, p)[k] by {
            if k < w.len() {
                let j = choose|j: int| k <= j < d.len() && #[trigger] d[j] == w[k];
                assert(es[j] == d[j]);
            } else {
                assert(es[es.len() - 1] == es.last());
            }
        }
        if exists|i: int| 0 <= i < d.len() && (#[trigger] d[i]).0 == p {
            let i = choose|i: int| 0 <= i < d.len() && (#[trigger] d[i]).0 == p;
            assert(es[i] == d[i]);
        }
        if (exists|i: int| 0 <= i < es.len() && (#[trigger] es[i]).0 == p) && es.last().0 != p {
            let i = choose|i: int| 0 <= i < es.len() && (#[trigger] es[i]).0 == p;
            assert(i < es.len() - 1);
            assert(d[i] == es[i]);
        }
        if es.last().0 == p {
            assert(es[es.len() - 1].0 == p);
        }
    }
}

proof fn lemma_without_prefix_sorted(es: Seq<(Seq<u8>, Seq<u8>)>, p: Seq<u8>)
    requires
        longest_first(es),
    ensures
        longest_first(without_prefix(es, p)),
    decreases es.len(),
{
    if es.len() > 0 {
        let d = es.drop_last();
        assert(longest_first(d)) by {
            assert forall|i: int, j: int| 0 <= i < j < d.len() implies (#[trigger] d[i]).0.len() >= (#[trigger] d[j]).0.len() by {
                assert(d[i] == es[i]);
                assert(d[j] == es[j]);
            }
        }
        lemma_without_prefix_sorted(d, p);
        lemma_without_prefix(d, p);
        let w = without_prefix(d, p);
        if es.last().0 != p {
            let ww = w.push(es.last());
            assert forall|i: int, j: int| 0 <= i < j < ww.len() implies (#[trigger] ww[i]).0.len() >= (#[trigger] ww[j]).0.len() by {
                if j == w.len() {
                    let q = choose|q: int| i <= q < d.len() && #[trigger] d[q] == w[i];
                    assert(d[q] == es[q]);
                    assert(es[es.len() - 1] == es.last());
                } else {
                    assert(ww[i] == w[i]);
                    assert(ww[j] == w[j]);
                }
            }
        }
    }
}

/// No slash in `path` is followed by another.
pub open spec fn no_double_slash(path: Seq<u8>) -> bool {
    forall|i: int| 0 <= i < path.len() - 1 && #[trigger] path[i] == SLASH ==> path[i + 1] != SLASH
}

/// Collapsing leaves a path without repeated slashes as it is.
pub proof fn law_collapse_keeps_plain(path: Seq<u8>)
    requires
        no_double_slash(path),
    ensures
        collapse_slashes(path) == path,
    decreases path.len(),
{
    if path.len() > 0 {
        let d = path.drop_last();
        assert forall|i: int| 0 <= i < d.len() - 1 && #[trigger] d[i] == SLASH implies d[i + 1] != SLASH by {
            assert(path[i] == d[i]);
        }
        law_collapse_keeps_plain(d);
        if path.len() >= 2 && path.last() == SLASH {
            assert(path[path.len() - 2] == SLASH ==> path[path.len() - 1] != SLASH);
        }
        assert(d.push(path.last()) =~= path);
    }
}

/// Collapsing drops slashes only: the bytes that are not slashes stay, all
/// of them and in order.
pub proof fn law_collapse_keeps_other_bytes(path: Seq<u8>)
    ensures
        collapse_slashes(path).filter(|c: u8| c != SLASH) == path.filter(|c: u8| c != SLASH),
    decreases path.len(),
{
    reveal(Seq::filter);
    if path.len() > 0 {
        let d = path.drop_last();
        law_collapse_keeps_other_bytes(d);
        let c = collapse_slashes(d);
        if !(path.last() == SLASH && path.len() >= 2 && path[path.len() - 2] == SLASH) {
            assert(c.push(path.last()).drop_last() =~= c);
        }
    }
}

/// A collapsed path has no slash followed by another.
pub proof fn law_collapse_no_double(path: Seq<u8>)
    ensures
        no_double_slash(collapse_slashes(path)),
    decreases path.len(),
{
    if path.len() > 0 {
        let d = path.drop_last();
        law_collapse_no_double(d);
        let c = collapse_slashes(d);
        if !(path.last() == SLASH && path.len() >= 2 && path[path.len() - 2] == SLASH) {
            let r = c.push(path.last());
            if path.last() == SLASH && c.len() > 0 {
                lemma_collapse_last(d);
            }
            assert forall|i: int| 0 <= i < r.len() - 1 && #[trigger] r[i] == SLASH implies r[i + 1] != SLASH by {
                if i < c.len() - 1 {
                    assert(r[i] == c[i] && r[i + 1] == c[i + 1]);
                }
            }
        }
    }
}

/// A collapsed non-empty path ends in the last byte of the path.
proof fn lemma_collapse_last(path: Seq<u8>)
    requires
        path.len() > 0,
    ensures
        collapse_slashes(path).len() > 0,
        collapse_slashes(path).last() == path.last(),
    decreases path.len(),
{
    let d = path.drop_last();
    if path.last() == SLASH && path.len() >= 2 && path[path.len() - 2] == SLASH {
        lemma_collapse_last(d);
    }
}

/// A path under no mount and without repeated slashes resolves to itself.
pub proof fn law_resolve_unmounted(es: Seq<(Seq<u8>, Seq<u8>)>, path: Seq<u8>)
    requires
        !has_mount(es, path),
        no_double_slash(path),
    ensures
        resolve_spec(es, path) == path,
{
    assert(!exists|i: int| best_mount(es, path, i));
    law_collapse_keeps_plain(path);
}

proof fn lemma_collapse_empty(path: Seq<u8>)
    ensures
        collapse_slashes(path).len() == 0 <==> path.len() == 0,
    decreases path.len(),
{
    if path.len() > 0 {
        lemma_collapse_empty(path.drop_last());
        if path.len() >= 2 {
            assert(path.drop_last().len() > 0);
        }
    }
}

/// Copies `path`, leaving out every slash that follows a slash.
fn collapse(path: &[u8]) -> (r: Vec<u8>)
    ensures
        r@ == collapse_slashes(path@),
{
    let mut out: Vec<u8> = Vec::new();
    let mut prev_slash = false;
    let mut i: usize = 0;
    while i < path.len()
        invariant
            i <= path@.len(),
            out@ == collapse_slashes(path@.take(i as int)),
            prev_slash == (i > 0 && path@[i - 1] == SLASH),
        decreases path@.len() - i,
    {
        proof {
            assert(path@.take(i + 1).drop_last() =~= path@.take(i as int));
        }
        let ch = path[i];
        if ch == SLASH {
            if !prev_slash {
                out.push(ch);
            }
            prev_slash = true;
        } else {
            out.push(ch);
            prev_slash = false;
        }
        i = i + 1;
    }
    assert(path@.take(path@.len() as int) =~= path@);
    out
}

} // verus!
