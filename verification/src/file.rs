//! Open files, pipes and epoll instances. What several descriptors share
//! (a file's bytes, an open file description, a pipe's buffer, an epoll
//! instance's ready set) lives in a `FileStore`, and handles refer to it
//! by index, so a duplicated descriptor sees what the original sees.
use vstd::prelude::*;
use std::collections::VecDeque;

verus! {

broadcast use vstd::std_specs::btree::group_btree_axioms, vstd::laws_cmp::group_laws_cmp;

pub const O_NONBLOCK: usize = 0o4000;
pub const EV_READABLE: u32 = 1;
pub const EV_CLOSED: u32 = 8;

#[derive(Clone, Copy)]
pub struct FdOpt {
    pub rd: bool,
    pub wr: bool,
    pub ap: bool,
    pub nb: bool,
}

impl Default for FdOpt {
    fn default() -> (r: Self)
        ensures
            r == (FdOpt { rd: true, wr: false, ap: false, nb: false }),
    {
        FdOpt { rd: true, wr: false, ap: false, nb: false }
    }
}

/// An open file description: the offset and the flags that every
/// duplicate of a descriptor shares.
#[derive(Clone, Copy)]
pub struct FdState {
    pub off: u64,
    pub opt: FdOpt,
    pub flk: u8,
}

pub struct PipeBuf {
    pub buf: VecDeque<u8>,
    pub ev: u32,
    pub ends: i32,
}

/// The shared objects behind descriptors.
pub struct FileStore {
    pub datas: Vec<Vec<u8>>,
    pub descs: Vec<FdState>,
    pub pipes: Vec<PipeBuf>,
    pub sets: Vec<Vec<usize>>,
}

impl FileStore {
    pub fn new() -> (r: Self)
        ensures
            r.datas@.len() == 0,
            r.descs@.len() == 0,
            r.pipes@.len() == 0,
            r.sets@.len() == 0,
    {
        FileStore { datas: Vec::new(), descs: Vec::new(), pipes: Vec::new(), sets: Vec::new() }
    }

    pub open spec fn data(&self, i: usize) -> Seq<u8> {
        self.datas@[i as int]@
    }

    pub open spec fn desc(&self, i: usize) -> FdState {
        self.descs@[i as int]
    }

    pub open spec fn pipe_bytes(&self, i: usize) -> Seq<u8> {
        self.pipes@[i as int].buf@
    }

    pub open spec fn set(&self, i: usize) -> Seq<usize> {
        self.sets@[i as int]@
    }

    /// Only file `i`'s bytes and the descriptions may differ between
    /// `self` and `other`.
    pub open spec fn same_but_data(&self, other: &FileStore, i: usize) -> bool {
        &&& self.datas@.len() == other.datas@.len()
        &&& forall|j: int| 0 <= j < self.datas@.len() && j != i ==> (#[trigger] self.datas@[j])@ == other.datas@[j]@
        &&& self.pipes@ == other.pipes@
        &&& self.sets@ == other.sets@
    }
}

/// How many bytes a read of up to `want` bytes at `off` gets from `len`.
pub open spec fn read_len(len: int, off: int, want: int) -> int {
    if off >= len { 0 } else if want < len - off { want } else { len - off }
}

/// `buf` with its first `n` bytes taken from `src` at `off`.
pub open spec fn read_into(buf: Seq<u8>, src: Seq<u8>, off: int, n: int) -> Seq<u8> {
    Seq::new(buf.len(), |i: int| if i < n { src[off + i] } else { buf[i] })
}

/// `d` with `buf` written at `off`, zero-filled up to `off` if it was
/// shorter.
pub open spec fn write_bytes(d: Seq<u8>, off: int, buf: Seq<u8>) -> Seq<u8> {
    let end = off + buf.len();
    let n = if end > d.len() { end } else { d.len() as int };
    Seq::new(
        n as nat,
        |i: int|
            if off <= i < end {
                buf[i - off]
            } else if i < d.len() {
                d[i]
            } else {
                0u8
            },
    )
}

/// `d` cut or zero-extended to `n` bytes.
pub open spec fn resized(d: Seq<u8>, n: int) -> Seq<u8> {
    Seq::new(n as nat, |i: int| if i < d.len() { d[i] } else { 0u8 })
}

/// Copies `n` bytes of `src` from `off` into the front of `buf`.
fn copy_out(buf: &mut [u8], src: &Vec<u8>, off: usize, n: usize)
    requires
        n <= old(buf)@.len(),
        off + n <= src@.len(),
        off + n <= usize::MAX,
    ensures
        final(buf)@ == read_into(old(buf)@, src@, off as int, n as int),
{
    let mut i: usize = 0;
    while i < n
        invariant
            i <= n,
            n <= buf@.len(),
            off + n <= src@.len(),
            off + n <= usize::MAX,
            buf@.len() == old(buf)@.len(),
            forall|k: int| 0 <= k < buf@.len() ==> #[trigger] buf@[k] == if k < i {
                src@[off + k]
            } else {
                old(buf)@[k]
            },
        decreases n - i,
    {
        buf[i] = src[off + i];
        i = i + 1;
    }
    assert(buf@ =~= read_into(old(buf)@, src@, off as int, n as int));
}

/// Writes `buf` into `d` at `off`, growing `d` with zeros first if needed.
fn write_into(d: &mut Vec<u8>, off: usize, buf: &[u8])
    requires
        off + buf@.len() <= usize::MAX,
    ensures
        final(d)@ == write_bytes(old(d)@, off as int, buf@),
{
    let end = off + buf.len();
    if end > d.len() {
        d.resize(end, 0u8);
    }
    let ghost grown = d@;
    let mut i: usize = 0;
    while i < buf.len()
        invariant
            i <= buf@.len(),
            end == off + buf@.len(),
            d@.len() == grown.len(),
            end <= grown.len(),
            forall|k: int| 0 <= k < d@.len() ==> #[trigger] d@[k] == if off <= k < off + i {
                buf@[k - off]
            } else {
                grown[k]
            },
        decreases buf@.len() - i,
    {
        d.set(off + i, buf[i]);
        i = i + 1;
    }
    assert(d@ =~= write_bytes(old(d)@, off as int, buf@)) by {
        assert forall|k: int| 0 <= k < d@.len() implies d@[k] == write_bytes(old(d)@, off as int, buf@)[k] by {
            if k >= old(d)@.len() && !(off <= k < end) {
                assert(grown[k] == 0u8);
            }
        }
    }
}

fn resize_to(d: &mut Vec<u8>, n: usize)
    ensures
        final(d)@ == resized(old(d)@, n as int),
{
    d.resize(n, 0u8);
    assert(d@ =~= resized(old(d)@, n as int));
}

/// The offset that a plain write through `h` starts at.
pub open spec fn write_off(s: &FileStore, h: &FHandle) -> usize {
    let d = s.desc(h.desc);
    (if d.opt.ap { s.data(h.data).len() as u64 } else { d.off }) as usize
}

/// A plain read of up to `want` bytes through `h` cannot push the offset
/// past the largest `u64`.
pub open spec fn read_fits(s: &FileStore, h: &FHandle, want: int) -> bool {
    s.desc(h.desc).off + read_len(s.data(h.data).len() as int, s.desc(h.desc).off as usize as int, want) <= u64::MAX
}

/// A plain write of `n` bytes through `h` stays inside the word and the
/// offset.
pub open spec fn write_fits(s: &FileStore, h: &FHandle, n: int) -> bool {
    &&& write_off(s, h) + n <= usize::MAX
    &&& s.desc(h.desc).opt.wr ==> s.desc(h.desc).off + n <= u64::MAX
}

/// What a read at `off` through `h` returns and leaves in the buffer.
pub open spec fn read_at_post(s: &FileStore, h: &FHandle, off: usize, b0: Seq<u8>, b1: Seq<u8>, r: Result<usize, &'static str>) -> bool {
    let n = read_len(s.data(h.data).len() as int, off as int, b0.len() as int);
    if !s.desc(h.desc).opt.rd {
        r == Err::<usize, &'static str>("ebadf") && b1 == b0
    } else {
        &&& r == Ok::<usize, &'static str>(n as usize)
        &&& b1 == read_into(b0, s.data(h.data), off as int, n)
    }
}

/// What a read at the description's offset through `h` returns and
/// leaves: the offset moves past what was read.
pub open spec fn read_post(s0: &FileStore, s1: &FileStore, h: &FHandle, b0: Seq<u8>, b1: Seq<u8>, r: Result<usize, &'static str>) -> bool {
    let d = s0.desc(h.desc);
    let n = read_len(s0.data(h.data).len() as int, d.off as usize as int, b0.len() as int);
    &&& read_at_post(s0, h, d.off as usize, b0, b1, r)
    &&& !d.opt.rd ==> *s1 == *s0
    &&& d.opt.rd ==> {
        &&& s1.descs@ == s0.descs@.update(h.desc as int, FdState { off: (d.off + n) as u64, ..d })
        &&& s1.datas@ == s0.datas@
        &&& s1.pipes@ == s0.pipes@
        &&& s1.sets@ == s0.sets@
    }
}

/// What a write of `buf` at `off` through `h` returns and leaves.
pub open spec fn write_at_post(s0: &FileStore, s1: &FileStore, h: &FHandle, off: usize, buf: Seq<u8>, r: Result<usize, &'static str>) -> bool {
    if !s0.desc(h.desc).opt.wr {
        r == Err::<usize, &'static str>("ebadf") && *s1 == *s0
    } else {
        &&& r == Ok::<usize, &'static str>(buf.len() as usize)
        &&& s1.data(h.data) == write_bytes(s0.data(h.data), off as int, buf)
        &&& s1.same_but_data(s0, h.data)
        &&& s1.descs@ == s0.descs@
    }
}

/// What a plain write of `buf` through `h` returns and leaves: it writes
/// at `write_off` and moves the offset on by what it wrote.
pub open spec fn write_post(s0: &FileStore, s1: &FileStore, h: &FHandle, buf: Seq<u8>, r: Result<usize, &'static str>) -> bool {
    let d = s0.desc(h.desc);
    if !d.opt.wr {
        r == Err::<usize, &'static str>("ebadf") && *s1 == *s0
    } else {
        &&& r == Ok::<usize, &'static str>(buf.len() as usize)
        &&& s1.data(h.data) == write_bytes(s0.data(h.data), write_off(s0, h) as int, buf)
        &&& s1.same_but_data(s0, h.data)
        &&& s1.descs@ == s0.descs@.update(h.desc as int, FdState { off: (d.off + buf.len()) as u64, ..d })
    }
}

/// `n` in decimal, most significant digit first.
pub open spec fn dec_digits(n: nat) -> Seq<u8>
    decreases n,
{
    if n < 10 {
        seq![(48 + n) as u8]
    } else {
        dec_digits(n / 10).push((48 + n % 10) as u8)
    }
}

fn push_dec(out: &mut Vec<u8>, n: u64)
    ensures
        final(out)@ == old(out)@ + dec_digits(n as nat),
    decreases n,
{
    if n >= 10 {
        push_dec(out, n / 10);
    }
    out.push(48u8 + (n % 10) as u8);
    assert(final(out)@ =~= old(out)@ + dec_digits(n as nat)) by {
        if n >= 10 {
            assert(dec_digits(n as nat) == dec_digits((n / 10) as nat).push((48 + n % 10) as u8));
        }
    }
}

/// How many bytes a splice of up to `count` takes from `h`.
pub open spec fn splice_len(s0: &FileStore, h: &FHandle, count: usize) -> int {
    let off = s0.desc(h.desc).off as usize;
    let len = s0.data(h.data).len();
    if count <= len - off { count as int } else { len - off }
}

/// `mid` is `s0` with handle `h`'s offset moved on by `n`.
pub open spec fn spliced(s0: &FileStore, mid: &FileStore, h: &FHandle, n: int) -> bool {
    let d = s0.desc(h.desc);
    &&& mid.descs@ == s0.descs@.update(h.desc as int, FdState { off: (d.off + n) as u64, ..d })
    &&& mid.datas == s0.datas
    &&& mid.pipes == s0.pipes
    &&& mid.sets == s0.sets
}

/// A splice of up to `count` bytes from `src` to `dst` keeps its offsets
/// within their words.
pub open spec fn splice_fits(s0: &FileStore, src: &FHandle, dst: &FHandle, count: usize) -> bool {
    let off = s0.desc(src.desc).off as usize;
    let len = s0.data(src.data).len();
    let n = if count <= len - off { count as int } else { len - off };
    let d = s0.desc(src.desc);
    let dd = if dst.desc == src.desc { FdState { off: (d.off + n) as u64, ..d } } else { s0.desc(dst.desc) };
    let woff = (if dd.opt.ap { len as u64 } else { dd.off }) as usize;
    off < len ==> {
        &&& d.off + n <= u64::MAX
        &&& (if dst.data == src.data { woff } else { (if dd.opt.ap { s0.data(dst.data).len() as u64 } else { dd.off }) as usize }) + n <= usize::MAX
        &&& dd.opt.wr ==> dd.off + n <= u64::MAX
    }
}

pub struct FHandle {
    pub path: Vec<u8>,
    pub data: usize,
    pub desc: usize,
    pub pipe: bool,
    pub cloexec: bool,
}

pub enum FSeek {
    Start(u64),
    End(i64),
    Cur(i64),
}

impl FHandle {
    /// The handle's file and description are in `store`.
    pub open spec fn in_store(&self, store: &FileStore) -> bool {
        self.data < store.datas@.len() && self.desc < store.descs@.len()
    }

    /// Opens `path` on a new empty file with a new description.
    pub fn new(store: &mut FileStore, path: &[u8], opt: FdOpt, pipe: bool, cloexec: bool) -> (r: Self)
        ensures
            r.path@ == path@,
            r.pipe == pipe,
            r.cloexec == cloexec,
            r.data == old(store).datas@.len(),
            r.desc == old(store).descs@.len(),
            final(store).datas@ == old(store).datas@.push(final(store).datas@.last()),
            final(store).datas@.last()@.len() == 0,
            final(store).descs@ == old(store).descs@.push(FdState { off: 0, opt, flk: 0 }),
            final(store).pipes@ == old(store).pipes@,
            final(store).sets@ == old(store).sets@,
    {
        Self::with_parts(store, path, opt, Vec::new(), pipe, cloexec)
    }

    /// Opens `path` on a new file holding `d`.
    pub fn with_data(store: &mut FileStore, path: &[u8], opt: FdOpt, d: Vec<u8>) -> (r: Self)
        ensures
            r.path@ == path@,
            !r.pipe,
            !r.cloexec,
            r.data == old(store).datas@.len(),
            r.desc == old(store).descs@.len(),
            final(store).datas@ == old(store).datas@.push(d),
            final(store).descs@ == old(store).descs@.push(FdState { off: 0, opt, flk: 0 }),
            final(store).pipes@ == old(store).pipes@,
            final(store).sets@ == old(store).sets@,
    {
        Self::with_parts(store, path, opt, d, false, false)
    }

    fn with_parts(store: &mut FileStore, path: &[u8], opt: FdOpt, d: Vec<u8>, pipe: bool, cloexec: bool) -> (r: Self)
        ensures
            r.path@ == path@,
            r.pipe == pipe,
            r.cloexec == cloexec,
            r.data == old(store).datas@.len(),
            r.desc == old(store).descs@.len(),
            final(store).datas@ == old(store).datas@.push(d),
            final(store).descs@ == old(store).descs@.push(FdState { off: 0, opt, flk: 0 }),
            final(store).pipes@ == old(store).pipes@,
            final(store).sets@ == old(store).sets@,
    {
        let data = store.datas.len();
        let desc = store.descs.len();
        store.datas.push(d);
        store.descs.push(FdState { off: 0, opt, flk: 0 });
        FHandle { path: crate::mount::copy_bytes(path), data, desc, pipe, cloexec }
    }

    /// Another handle on the same file and description.
    pub fn dup(&self, cloexec: bool) -> (r: Self)
        ensures
            r.path@ == self.path@,
            r.data == self.data,
            r.desc == self.desc,
            r.pipe == self.pipe,
            r.cloexec == cloexec,
    {
        FHandle {
            path: crate::mount::copy_bytes(self.path.as_slice()),
            data: self.data,
            desc: self.desc,
            pipe: self.pipe,
            cloexec,
        }
    }

    /// Sets the description's non-blocking flag from `arg`.
    pub fn set_opt(&self, store: &mut FileStore, arg: usize)
        requires
            self.in_store(old(store)),
        ensures
            final(store).descs@ == old(store).descs@.update(
                self.desc as int,
                FdState {
                    opt: FdOpt { nb: (arg & O_NONBLOCK) != 0, ..old(store).desc(self.desc).opt },
                    ..old(store).desc(self.desc)
                },
            ),
            final(store).datas@ == old(store).datas@,
            final(store).pipes@ == old(store).pipes@,
            final(store).sets@ == old(store).sets@,
    {
        let d = store.descs[self.desc];
        let opt = FdOpt { rd: d.opt.rd, wr: d.opt.wr, ap: d.opt.ap, nb: (arg & O_NONBLOCK) != 0 };
        store.descs.set(self.desc, FdState { off: d.off, opt, flk: d.flk });
    }

    pub fn get_opt(&self, store: &FileStore) -> (r: FdOpt)
        requires
            self.in_store(store),
        ensures
            r == store.desc(self.desc).opt,
    {
        store.descs[self.desc].opt
    }

    /// Reads at the description's offset, and moves it past what was read.
    pub fn read(&self, store: &mut FileStore, buf: &mut [u8]) -> (r: Result<usize, &'static str>)
        requires
            self.in_store(old(store)),
            read_fits(old(store), self, old(buf)@.len() as int),
        ensures
            read_post(old(store), final(store), self, old(buf)@, final(buf)@, r),
    {
        let want = buf.len();
        let off = store.descs[self.desc].off as usize;
        let len = match self.read_at(store, off, buf) {
            Ok(n) => n,
            Err(e) => {
                return Err(e);
            },
        };
        let d = store.descs[self.desc];
        assert(want == old(buf)@.len());
        let nd = FdState { off: d.off + len as u64, opt: d.opt, flk: d.flk };
        store.descs.set(self.desc, nd);
        Ok(len)
    }

    /// Reads at `off` without touching the description's offset.
    pub fn read_at(&self, store: &FileStore, off: usize, buf: &mut [u8]) -> (r: Result<usize, &'static str>)
        requires
            self.in_store(store),
        ensures
            read_at_post(store, self, off, old(buf)@, final(buf)@, r),
    {
        if !store.descs[self.desc].opt.rd {
            return Err("ebadf");
        }
        let d = &store.datas[self.data];
        if off >= d.len() {
            assert(buf@ =~= read_into(old(buf)@, d@, off as int, 0));
            return Ok(0);
        }
        let n = if buf.len() < d.len() - off { buf.len() } else { d.len() - off };
        copy_out(buf, d, off, n);
        Ok(n)
    }

    /// Reads (odd `dir`) or writes, at `offset` or at the description's
    /// offset; a missing buffer is refused.
    pub fn transfer(&self, store: &mut FileStore, dir: u8, offset: Option<usize>, buf_rd: Option<&mut [u8]>, buf_wr: Option<&[u8]>) -> (r: Result<usize, &'static str>)
        requires
            self.in_store(old(store)),
            dir & 1 != 0 && offset is None && buf_rd is Some ==> read_fits(old(store), self, (*buf_rd->0)@.len() as int),
            dir & 1 == 0 && offset is Some && buf_wr is Some ==> offset->0 + buf_wr->0@.len() <= usize::MAX,
            dir & 1 == 0 && offset is None && buf_wr is Some ==> write_fits(old(store), self, buf_wr->0@.len() as int),
        ensures
            dir & 1 != 0 && buf_rd is None ==> r == Err::<usize, &'static str>("einval") && *final(store) == *old(store),
            dir & 1 != 0 && offset is Some && buf_rd is Some ==> read_at_post(old(store), self, offset->0, (*buf_rd->0)@, (*final(buf_rd->0))@, r)
                && *final(store) == *old(store),
            dir & 1 != 0 && offset is None && buf_rd is Some ==> read_post(old(store), final(store), self, (*buf_rd->0)@, (*final(buf_rd->0))@, r),
            dir & 1 == 0 && buf_wr is None ==> r == Err::<usize, &'static str>("einval") && *final(store) == *old(store),
            dir & 1 == 0 && offset is Some && buf_wr is Some ==> write_at_post(old(store), final(store), self, offset->0, buf_wr->0@, r),
            dir & 1 == 0 && offset is None && buf_wr is Some ==> write_post(old(store), final(store), self, buf_wr->0@, r),
    {
        if dir & 1 != 0 {
            match (offset, buf_rd) {
                (Some(off), Some(buf)) => self.read_at(store, off, buf),
                (None, Some(buf)) => self.read(store, buf),
                _ => Err("einval"),
            }
        } else {
            match (offset, buf_wr) {
                (Some(off), Some(buf)) => self.write_at(store, off, buf),
                (None, Some(buf)) => self.write(store, buf),
                _ => Err("einval"),
            }
        }
    }

    /// Writes at the description's offset, or at the end in append mode,
    /// and moves the offset on by what was written.
    pub fn write(&self, store: &mut FileStore, buf: &[u8]) -> (r: Result<usize, &'static str>)
        requires
            self.in_store(old(store)),
            write_fits(old(store), self, buf@.len() as int),
        ensures
            write_post(old(store), final(store), self, buf@, r),
    {
        let d = store.descs[self.desc];
        let off = if d.opt.ap { store.datas[self.data].len() as u64 } else { d.off } as usize;
        let len = match self.write_at(store, off, buf) {
            Ok(n) => n,
            Err(e) => {
                return Err(e);
            },
        };
        let d2 = store.descs[self.desc];
        let nd = FdState { off: d2.off + len as u64, opt: d2.opt, flk: d2.flk };
        store.descs.set(self.desc, nd);
        Ok(len)
    }

    /// Writes `buf` at `off`, growing the file with zeros as needed.
    pub fn write_at(&self, store: &mut FileStore, off: usize, buf: &[u8]) -> (r: Result<usize, &'static str>)
        requires
            self.in_store(old(store)),
            off + buf@.len() <= usize::MAX,
        ensures
            write_at_post(old(store), final(store), self, off, buf@, r),
    {
        if !store.descs[self.desc].opt.wr {
            return Err("ebadf");
        }
        write_into(&mut store.datas[self.data], off, buf);
        Ok(buf.len())
    }

    /// Moves the description's offset and returns it.
    pub fn seek(&self, store: &mut FileStore, pos: FSeek) -> (r: Result<u64, &'static str>)
        requires
            self.in_store(old(store)),
            pos matches FSeek::End(o) ==> i64::MIN <= old(store).data(self.data).len() as i64 + o <= i64::MAX,
            pos matches FSeek::Cur(o) ==> i64::MIN <= old(store).desc(self.desc).off as i64 + o <= i64::MAX,
        ensures
            ({
                let s = old(store);
                let d = s.desc(self.desc);
                let off: u64 = match pos {
                    FSeek::Start(o) => o,
                    FSeek::End(o) => (s.data(self.data).len() as i64 + o) as u64,
                    FSeek::Cur(o) => (d.off as i64 + o) as u64,
                };
                &&& r == Ok::<u64, &'static str>(off)
                &&& final(store).descs@ == s.descs@.update(self.desc as int, FdState { off, ..d })
                &&& final(store).datas@ == s.datas@
                &&& final(store).pipes@ == s.pipes@
                &&& final(store).sets@ == s.sets@
            }),
    {
        let d = store.descs[self.desc];
        let off: u64 = match pos {
            FSeek::Start(o) => o,
            FSeek::End(o) => (store.datas[self.data].len() as i64 + o) as u64,
            FSeek::Cur(o) => (d.off as i64 + o) as u64,
        };
        store.descs.set(self.desc, FdState { off, opt: d.opt, flk: d.flk });
        Ok(off)
    }

    /// Cuts or zero-extends the file to `len` bytes.
    pub fn set_len(&self, store: &mut FileStore, len: u64) -> (r: Result<(), &'static str>)
        requires
            self.in_store(old(store)),
        ensures
            !old(store).desc(self.desc).opt.wr ==> r == Err::<(), &'static str>("ebadf") && *final(store)
                == *old(store),
            old(store).desc(self.desc).opt.wr ==> {
                &&& r == Ok::<(), &'static str>(())
                &&& final(store).data(self.data) == resized(old(store).data(self.data), len as usize as int)
                &&& final(store).same_but_data(old(store), self.data)
                &&& final(store).descs@ == old(store).descs@
            },
    {
        if !store.descs[self.desc].opt.wr {
            return Err("ebadf");
        }
        resize_to(&mut store.datas[self.data], len as usize);
        Ok(())
    }

    pub fn sync_all(&self) -> (r: Result<(), &'static str>)
        ensures
            r == Ok::<(), &'static str>(()),
    {
        Ok(())
    }

    pub fn sync_data(&self) -> (r: Result<(), &'static str>)
        ensures
            r == Ok::<(), &'static str>(()),
    {
        Ok(())
    }

    /// Looking a name up under a plain file always succeeds.
    pub fn lookup(&self, path: &[u8], depth: usize) -> (r: Result<(), &'static str>)
        ensures
            r == Ok::<(), &'static str>(()),
    {
        Ok(())
    }

    /// The next directory entry: `entry_` and the description's offset in
    /// decimal, which then moves on by one.
    pub fn read_entry(&self, store: &mut FileStore) -> (r: Result<Vec<u8>, &'static str>)
        requires
            self.in_store(old(store)),
            old(store).desc(self.desc).opt.rd ==> old(store).desc(self.desc).off < u64::MAX,
        ensures
            !old(store).desc(self.desc).opt.rd ==> r == Err::<Vec<u8>, &'static str>("ebadf") && *final(store) == *old(store),
            old(store).desc(self.desc).opt.rd ==> {
                let d = old(store).desc(self.desc);
                &&& r matches Ok(v) && v@ == seq![0x65u8, 0x6e, 0x74, 0x72, 0x79, 0x5f] + dec_digits(d.off as nat)
                &&& final(store).descs@ == old(store).descs@.update(self.desc as int, FdState { off: (d.off + 1) as u64, ..d })
                &&& final(store).datas == old(store).datas
                &&& final(store).pipes == old(store).pipes
                &&& final(store).sets == old(store).sets
            },
    {
        let d = store.descs[self.desc];
        if !d.opt.rd {
            return Err("ebadf");
        }
        let off = d.off;
        store.descs.set(self.desc, FdState { off: off + 1, opt: d.opt, flk: d.flk });
        let mut out: Vec<u8> = Vec::new();
        out.push(0x65);
        out.push(0x6e);
        out.push(0x74);
        out.push(0x72);
        out.push(0x79);
        out.push(0x5f);
        let ghost head = out@;
        assert(head =~= seq![0x65u8, 0x6e, 0x74, 0x72, 0x79, 0x5f]);
        push_dec(&mut out, off);
        Ok(out)
    }

    /// Moves up to `count` bytes from this file's offset to `dst`, as a
    /// write there; this file's offset moves on by what was taken.
    pub fn splice_to(&self, store: &mut FileStore, dst: &FHandle, count: usize) -> (r: Result<usize, &'static str>)
        requires
            self.in_store(old(store)),
            dst.in_store(old(store)),
            splice_fits(old(store), self, dst, count),
        ensures
            ({
                let s0 = old(store);
                let off = s0.desc(self.desc).off as usize;
                let len = s0.data(self.data).len();
                let n = splice_len(s0, self, count);
                if off >= len {
                    r == Ok::<usize, &'static str>(0) && *final(store) == *old(store)
                } else {
                    exists|mid: FileStore| #[trigger] spliced(s0, &mid, self, n) && write_post(&mid, final(store), dst, s0.data(self.data).subrange(off as int, off + n), r)
                }
            }),
    {
        let src_off = store.descs[self.desc].off;
        let slen = store.datas[self.data].len();
        if src_off as usize >= slen {
            return Ok(0);
        }
        let off = src_off as usize;
        let avail = slen - off;
        let n = if count <= avail { count } else { avail };
        let mut chunk: Vec<u8> = Vec::new();
        let mut i: usize = 0;
        while i < n
            invariant
                i <= n,
                off + n <= slen,
                slen == store.datas@[self.data as int]@.len(),
                self.data < store.datas@.len(),
                chunk@ == store.datas@[self.data as int]@.subrange(off as int, off + i),
            decreases n - i,
        {
            chunk.push(store.datas[self.data][off + i]);
            i = i + 1;
            assert(chunk@ =~= store.datas@[self.data as int]@.subrange(off as int, off + i));
        }
        let d = store.descs[self.desc];
        store.descs.set(self.desc, FdState { off: d.off + n as u64, opt: d.opt, flk: d.flk });
        let ghost mid = *store;
        proof {
            assert(spliced(old(store), &mid, self, n as int));
            assert(chunk@ == old(store).data(self.data).subrange(off as int, off + n));
        }
        let r = dst.write(store, chunk.as_slice());
        proof {
            assert(write_post(&mid, store, dst, old(store).data(self.data).subrange(off as int, off + n), r));
            let s0 = old(store);
            let o = s0.desc(self.desc).off as usize;
            let len = s0.data(self.data).len();
            let nn = splice_len(s0, self, count);
            assert(nn == n as int);
            assert(spliced(s0, &mid, self, nn));
            assert(exists|m: FileStore| #[trigger] spliced(s0, &m, self, nn) && write_post(&m, store, dst, s0.data(self.data).subrange(o as int, o + nn), r));
        }
        r
    }

    pub fn metadata_sz(&self, store: &FileStore) -> (r: usize)
        requires
            self.in_store(store),
        ensures
            r == store.data(self.data).len(),
    {
        store.datas[self.data].len()
    }

    pub fn poll_status(&self) -> (r: (bool, bool, bool))
        ensures
            r == (true, true, false),
    {
        (true, true, false)
    }

    pub fn io_ctl(&self, cmd: u32, arg: usize) -> (r: Result<usize, &'static str>)
        ensures
            r == Ok::<usize, &'static str>(0),
    {
        Ok(0)
    }

    pub fn mmap(&self, start: usize, end: usize, off: usize) -> (r: Result<(), &'static str>)
        ensures
            r == Ok::<(), &'static str>(()),
    {
        Ok(())
    }

    /// The index of the file's bytes in the store.
    pub fn inode_ref(&self) -> (r: usize)
        ensures
            r == self.data,
    {
        self.data
    }

    pub fn advise_readahead(&self, store: &FileStore, offset: usize, len: usize) -> (r: Result<(), &'static str>)
        requires
            offset + len <= usize::MAX,
        ensures
            r == Ok::<(), &'static str>(()),
    {
        Ok(())
    }

    /// Zero-extends the file to cover `[offset, offset + len)`.
    pub fn fallocate(&self, store: &mut FileStore, offset: usize, len: usize) -> (r: Result<(), &'static str>)
        requires
            self.in_store(old(store)),
            offset + len <= usize::MAX,
        ensures
            !old(store).desc(self.desc).opt.wr ==> r == Err::<(), &'static str>("ebadf") && *final(store)
                == *old(store),
            old(store).desc(self.desc).opt.wr ==> {
                &&& r == Ok::<(), &'static str>(())
                &&& final(store).data(self.data) == if offset + len > old(store).data(self.data).len() {
                    resized(old(store).data(self.data), offset + len)
                } else {
                    old(store).data(self.data)
                }
                &&& final(store).same_but_data(old(store), self.data)
                &&& final(store).descs@ == old(store).descs@
            },
    {
        if !store.descs[self.desc].opt.wr {
            return Err("ebadf");
        }
        let needed = offset + len;
        if needed > store.datas[self.data].len() {
            resize_to(&mut store.datas[self.data], needed);
        } else {
            assert(store.datas@ =~= old(store).datas@);
        }
        Ok(())
    }
}

#[derive(Clone, Copy, PartialEq, Eq, Structural)]
pub enum PipeDir {
    Rd,
    Wr,
}

/// One end of a pipe.
pub struct PipeNode {
    pub data: usize,
    pub dir: PipeDir,
}

/// `s` with `v` pushed in order.
pub open spec fn bytes_pushed(s: Seq<u8>, v: Seq<u8>) -> Seq<u8> {
    s + v
}

impl PipeNode {
    pub open spec fn in_store(&self, store: &FileStore) -> bool {
        self.data < store.pipes@.len()
    }

    /// A new pipe with both ends open; the read end comes first.
    pub fn pair(store: &mut FileStore) -> (r: (PipeNode, PipeNode))
        ensures
            r.0.data == old(store).pipes@.len(),
            r.1.data == old(store).pipes@.len(),
            r.0.dir == PipeDir::Rd,
            r.1.dir == PipeDir::Wr,
            final(store).pipes@.len() == old(store).pipes@.len() + 1,
            forall|i: int| 0 <= i < old(store).pipes@.len() ==> #[trigger] final(store).pipes@[i] == old(store).pipes@[i],
            final(store).pipe_bytes(r.0.data).len() == 0,
            final(store).pipes@[r.0.data as int].ev == 0,
            final(store).pipes@[r.0.data as int].ends == 2,
            final(store).datas@ == old(store).datas@,
            final(store).descs@ == old(store).descs@,
            final(store).sets@ == old(store).sets@,
    {
        let id = store.pipes.len();
        store.pipes.push(PipeBuf { buf: VecDeque::new(), ev: 0, ends: 2 });
        (PipeNode { data: id, dir: PipeDir::Rd }, PipeNode { data: id, dir: PipeDir::Wr })
    }

    /// Another handle on the same end.
    pub fn dup(&self) -> (r: PipeNode)
        ensures
            r.data == self.data,
            r.dir == self.dir,
    {
        PipeNode { data: self.data, dir: self.dir }
    }

    pub fn can_read(&self, store: &FileStore) -> (r: bool)
        requires
            self.in_store(store),
        ensures
            r == (self.dir == PipeDir::Rd && (store.pipe_bytes(self.data).len() > 0 || store.pipes@[self.data as int].ends < 2)),
    {
        if self.dir != PipeDir::Rd {
            return false;
        }
        let d = &store.pipes[self.data];
        d.buf.len() > 0 || d.ends < 2
    }

    pub fn can_write(&self, store: &FileStore) -> (r: bool)
        requires
            self.in_store(store),
        ensures
            r == (self.dir == PipeDir::Wr && store.pipes@[self.data as int].ends == 2),
    {
        if self.dir != PipeDir::Wr {
            return false;
        }
        store.pipes[self.data].ends == 2
    }

    /// Takes up to `buf.len()` bytes from the pipe; an empty pipe whose
    /// write end is open answers "again". A pipe left empty is no longer
    /// readable.
    pub fn read_at(&self, store: &mut FileStore, buf: &mut [u8]) -> (r: Result<usize, &'static str>)
        requires
            self.in_store(old(store)),
        ensures
            pipe_read_post(old(store), final(store), self, old(buf)@, final(buf)@, r, false),
    {
        if buf.len() == 0 {
            return Ok(0);
        }
        pipe_take(store, self, buf, false)
    }

    /// Appends `buf` to the pipe, which becomes readable.
    pub fn write_at(&self, store: &mut FileStore, buf: &[u8]) -> (r: Result<usize, &'static str>)
        requires
            self.in_store(old(store)),
        ensures
            self.dir != PipeDir::Wr ==> r == Ok::<usize, &'static str>(0) && *final(store) == *old(store),
            self.dir == PipeDir::Wr ==> {
                &&& r == Ok::<usize, &'static str>(buf@.len() as usize)
                &&& pipe_appended(old(store), final(store), self.data, buf@, (old(store).pipes@[self.data as int].ev | EV_READABLE) as u32)
            },
    {
        if self.dir != PipeDir::Wr {
            return Ok(0);
        }
        pipe_append(store, self.data, buf);
        let ev = store.pipes[self.data].ev | EV_READABLE;
        store.pipes[self.data].ev = ev;
        Ok(buf.len())
    }

    pub fn poll(&self, store: &FileStore) -> (r: (bool, bool, bool))
        requires
            self.in_store(store),
        ensures
            r.0 == (self.dir == PipeDir::Rd && (store.pipe_bytes(self.data).len() > 0 || store.pipes@[self.data as int].ends < 2)),
            r.1 == (self.dir == PipeDir::Wr && store.pipes@[self.data as int].ends == 2),
            !r.2,
    {
        (self.can_read(store), self.can_write(store), false)
    }

    /// Closes this end: the pipe has one end fewer and is marked closed.
    pub fn release(&self, store: &mut FileStore)
        requires
            self.in_store(old(store)),
            old(store).pipes@[self.data as int].ends > i32::MIN,
        ensures
            final(store).pipes@.len() == old(store).pipes@.len(),
            forall|i: int| 0 <= i < old(store).pipes@.len() && i != self.data ==> #[trigger] final(store).pipes@[i] == old(store).pipes@[i],
            final(store).pipe_bytes(self.data) == old(store).pipe_bytes(self.data),
            final(store).pipes@[self.data as int].ends == old(store).pipes@[self.data as int].ends - 1,
            final(store).pipes@[self.data as int].ev == old(store).pipes@[self.data as int].ev | EV_CLOSED,
            final(store).datas@ == old(store).datas@,
            final(store).descs@ == old(store).descs@,
            final(store).sets@ == old(store).sets@,
    {
        let e = store.pipes[self.data].ends - 1;
        store.pipes[self.data].ends = e;
        let ev = store.pipes[self.data].ev | EV_CLOSED;
        store.pipes[self.data].ev = ev;
    }
}

/// Pipe `i`'s bytes grew by `v` and its events became `ev`; nothing else
/// changed.
pub open spec fn pipe_appended(s0: &FileStore, s1: &FileStore, i: usize, v: Seq<u8>, ev: u32) -> bool {
    &&& s1.pipes@.len() == s0.pipes@.len()
    &&& forall|j: int| 0 <= j < s0.pipes@.len() && j != i ==> #[trigger] s1.pipes@[j] == s0.pipes@[j]
    &&& s1.pipe_bytes(i) == s0.pipe_bytes(i) + v
    &&& s1.pipes@[i as int].ends == s0.pipes@[i as int].ends
    &&& s1.pipes@[i as int].ev == ev
    &&& s1.datas@ == s0.datas@
    &&& s1.descs@ == s0.descs@
    &&& s1.sets@ == s0.sets@
}

/// What a read of a non-empty buffer from pipe end `p` returns and
/// leaves; `flike` picks the descriptor-level read, which also answers a
/// write end with nothing before looking at the pipe.
pub open spec fn pipe_read_post(s0: &FileStore, s1: &FileStore, p: &PipeNode, b0: Seq<u8>, b1: Seq<u8>, r: Result<usize, &'static str>, flike: bool) -> bool {
    let pb = s0.pipes@[p.data as int];
    let n = if b0.len() < pb.buf@.len() { b0.len() as int } else { pb.buf@.len() as int };
    if b0.len() == 0 || p.dir != PipeDir::Rd {
        r == Ok::<usize, &'static str>(0) && *s1 == *s0 && b1 == b0
    } else if pb.buf@.len() == 0 && pb.ends == 2 {
        r == Err::<usize, &'static str>("again") && *s1 == *s0 && b1 == b0
    } else {
        &&& r == Ok::<usize, &'static str>(n as usize)
        &&& b1 == read_into(b0, pb.buf@, 0, n)
        &&& s1.pipes@.len() == s0.pipes@.len()
        &&& forall|j: int| 0 <= j < s0.pipes@.len() && j != p.data ==> #[trigger] s1.pipes@[j] == s0.pipes@[j]
        &&& s1.pipe_bytes(p.data) == pb.buf@.skip(n)
        &&& s1.pipes@[p.data as int].ends == pb.ends
        &&& s1.pipes@[p.data as int].ev == if n == pb.buf@.len() { pb.ev & !EV_READABLE } else { pb.ev }
        &&& s1.datas@ == s0.datas@
        &&& s1.descs@ == s0.descs@
        &&& s1.sets@ == s0.sets@
    }
}

/// Bytes written into an empty pipe come out whole, in order, from a read
/// on its read end through a buffer at least as long, and the pipe is empty
/// again.
pub proof fn law_pipe_write_then_read(
    s0: FileStore,
    s1: FileStore,
    s2: FileStore,
    rd: PipeNode,
    v: Seq<u8>,
    ev: u32,
    b0: Seq<u8>,
    b1: Seq<u8>,
    r: Result<usize, &'static str>,
)
    requires
        rd.dir == PipeDir::Rd,
        rd.data < s0.pipes@.len(),
        s0.pipe_bytes(rd.data).len() == 0,
        pipe_appended(&s0, &s1, rd.data, v, ev),
        pipe_read_post(&s1, &s2, &rd, b0, b1, r, false),
        0 < v.len() <= b0.len(),
    ensures
        r == Ok::<usize, &'static str>(v.len() as usize),
        b1.take(v.len() as int) == v,
        s2.pipe_bytes(rd.data).len() == 0,
{
    assert(s1.pipe_bytes(rd.data) =~= v);
    assert(b1.take(v.len() as int) =~= v);
}

/// Appends `v` to pipe `i`.
fn pipe_append(store: &mut FileStore, i: usize, v: &[u8])
    requires
        i < old(store).pipes@.len(),
    ensures
        pipe_appended(old(store), final(store), i, v@, old(store).pipes@[i as int].ev),
{
    let mut k: usize = 0;
    while k < v.len()
        invariant
            i < store.pipes@.len(),
            k <= v@.len(),
            pipe_appended(old(store), store, i, v@.take(k as int), old(store).pipes@[i as int].ev),
        decreases v@.len() - k,
    {
        store.pipes[i].buf.push_back(v[k]);
        k = k + 1;
        assert(store.pipe_bytes(i) =~= old(store).pipe_bytes(i) + v@.take(k as int));
    }
    assert(v@.take(v@.len() as int) =~= v@);
}

/// Takes bytes from the front of the pipe behind `p` into `buf`, which is
/// not empty.
fn pipe_take(store: &mut FileStore, p: &PipeNode, buf: &mut [u8], flike: bool) -> (r: Result<usize, &'static str>)
    requires
        p.in_store(old(store)),
        old(buf)@.len() > 0,
    ensures
        pipe_read_post(old(store), final(store), p, old(buf)@, final(buf)@, r, flike),
{
    if p.dir != PipeDir::Rd {
        return Ok(0);
    }
    let ghost pb = store.pipes@[p.data as int];
    if store.pipes[p.data].buf.len() == 0 && store.pipes[p.data].ends == 2 {
        return Err("again");
    }
    let avail = store.pipes[p.data].buf.len();
    let n = if buf.len() < avail { buf.len() } else { avail };
    let mut k: usize = 0;
    while k < n
        invariant
            p.data < store.pipes@.len(),
            k <= n,
            n <= buf@.len(),
            n <= pb.buf@.len(),
            buf@.len() == old(buf)@.len(),
            store.pipes@.len() == old(store).pipes@.len(),
            forall|j: int| 0 <= j < old(store).pipes@.len() && j != p.data ==> #[trigger] store.pipes@[j] == old(store).pipes@[j],
            store.pipe_bytes(p.data) == pb.buf@.skip(k as int),
            store.pipes@[p.data as int].ends == pb.ends,
            store.pipes@[p.data as int].ev == pb.ev,
            pb == old(store).pipes@[p.data as int],
            store.datas@ == old(store).datas@,
            store.descs@ == old(store).descs@,
            store.sets@ == old(store).sets@,
            forall|j: int| 0 <= j < buf@.len() ==> #[trigger] buf@[j] == if j < k { pb.buf@[j] } else { old(buf)@[j] },
        decreases n - k,
    {
        let b = store.pipes[p.data].buf.pop_front().unwrap();
        buf[k] = b;
        k = k + 1;
        assert(store.pipe_bytes(p.data) =~= pb.buf@.skip(k as int));
    }
    assert(buf@ =~= read_into(old(buf)@, pb.buf@, 0, n as int));
    if store.pipes[p.data].buf.len() == 0 {
        let ev = store.pipes[p.data].ev & !EV_READABLE;
        store.pipes[p.data].ev = ev;
    }
    Ok(n)
}

#[derive(Clone, Copy)]
pub struct EpData {
    pub ptr: u64,
}

#[derive(Clone, Copy)]
pub struct EpEvent {
    pub events: u32,
    pub data: EpData,
}

impl EpEvent {
    pub const IN: u32 = 0x001;
    pub const OUT: u32 = 0x004;
    pub const ERR: u32 = 0x008;
    pub const HUP: u32 = 0x010;
    pub const PRI: u32 = 0x002;
    pub const RDNORM: u32 = 0x040;
    pub const RDBAND: u32 = 0x080;
    pub const WRNORM: u32 = 0x100;
    pub const WRBAND: u32 = 0x200;
    pub const MSG: u32 = 0x400;
    pub const RDHUP: u32 = 0x2000;
    pub const EXCL: u32 = 0x1000_0000;
    pub const WAKEUP: u32 = 0x2000_0000;
    pub const ONESHOT: u32 = 0x4000_0000;
    pub const ET: u32 = 0x8000_0000;

    pub fn has(&self, ev: u32) -> (r: bool)
        ensures
            r == (self.events & ev != 0),
    {
        (self.events & ev) != 0
    }
}

pub struct EpCtlOp;

impl EpCtlOp {
    pub const ADD: i32 = 1;
    pub const DEL: i32 = 2;
    pub const MOD: i32 = 3;
}

/// An epoll instance: the watched descriptors and their events, and the
/// shared sets of ready descriptors and of descriptors changed lately.
pub struct EpInst {
    pub events: std::collections::BTreeMap<usize, EpEvent>,
    pub ready: usize,
    pub new_ctl: usize,
}

/// `s` with `x` added, as a set.
pub open spec fn set_insert(s: Seq<usize>, x: usize) -> Seq<usize> {
    if s.contains(x) { s } else { s.push(x) }
}

fn insert_unique(v: &mut Vec<usize>, x: usize)
    ensures
        final(v)@ == set_insert(old(v)@, x),
{
    let mut i: usize = 0;
    while i < v.len()
        invariant
            i <= v@.len(),
            v@ == old(v)@,
            forall|j: int| 0 <= j < i ==> v@[j] != x,
        decreases v@.len() - i,
    {
        if v[i] == x {
            assert(v@.contains(x));
            return;
        }
        i = i + 1;
    }
    assert(!v@.contains(x));
    v.push(x);
}

impl EpInst {
    pub open spec fn in_store(&self, store: &FileStore) -> bool {
        self.ready < store.sets@.len() && self.new_ctl < store.sets@.len()
    }

    pub fn new(store: &mut FileStore) -> (r: Self)
        ensures
            r.events@ == Map::<usize, EpEvent>::empty(),
            r.ready == old(store).sets@.len(),
            r.new_ctl == old(store).sets@.len() + 1,
            final(store).sets@.len() == old(store).sets@.len() + 2,
            forall|i: int| 0 <= i < old(store).sets@.len() ==> #[trigger] final(store).sets@[i] == old(store).sets@[i],
            final(store).set(r.ready).len() == 0,
            final(store).set(r.new_ctl).len() == 0,
            final(store).datas@ == old(store).datas@,
            final(store).descs@ == old(store).descs@,
            final(store).pipes@ == old(store).pipes@,
    {
        let ready = store.sets.len();
        store.sets.push(Vec::new());
        let new_ctl = store.sets.len();
        store.sets.push(Vec::new());
        EpInst { events: std::collections::BTreeMap::new(), ready, new_ctl }
    }

    /// Another handle on the same instance, with a copy of its events.
    pub fn dup(&self) -> (r: Self)
        ensures
            r.events@ == self.events@,
            r.ready == self.ready,
            r.new_ctl == self.new_ctl,
    {
        EpInst { events: self.events.clone(), ready: self.ready, new_ctl: self.new_ctl }
    }

    /// Adds, changes or removes the watch on `fd`. Adding or changing it
    /// marks `fd` as changed; changing or removing a watch that is not
    /// there, or an unknown operation, is refused.
    pub fn control(&mut self, store: &mut FileStore, op: i32, fd: usize, ev: &EpEvent) -> (r: Result<(), &'static str>)
        requires
            old(self).in_store(old(store)),
        ensures
            final(self).ready == old(self).ready,
            final(self).new_ctl == old(self).new_ctl,
            final(store).datas@ == old(store).datas@,
            final(store).descs@ == old(store).descs@,
            final(store).pipes@ == old(store).pipes@,
            (op == 1 || (op == 3 && old(self).events@.contains_key(fd))) ==> {
                &&& r == Ok::<(), &'static str>(())
                &&& final(self).events@ == old(self).events@.insert(fd, *ev)
                &&& final(store).sets@ == old(store).sets@.update(
                    old(self).new_ctl as int,
                    final(store).sets@[old(self).new_ctl as int],
                )
                &&& final(store).set(old(self).new_ctl) == set_insert(old(store).set(old(self).new_ctl), fd)
            },
            op == 2 && old(self).events@.contains_key(fd) ==> {
                &&& r == Ok::<(), &'static str>(())
                &&& final(self).events@ == old(self).events@.remove(fd)
                &&& final(store).sets@ == old(store).sets@
            },
            !(op == 1 || ((op == 2 || op == 3) && old(self).events@.contains_key(fd))) ==> {
                &&& r == Err::<(), &'static str>("eperm")
                &&& final(self).events@ == old(self).events@
                &&& final(store).sets@ == old(store).sets@
            },
    {
        if op == 1 {
            self.events.insert(fd, *ev);
            insert_unique(&mut store.sets[self.new_ctl], fd);
            Ok(())
        } else if op == 3 {
            if self.events.contains_key(&fd) {
                self.events.insert(fd, *ev);
                insert_unique(&mut store.sets[self.new_ctl], fd);
                Ok(())
            } else {
                Err("eperm")
            }
        } else if op == 2 {
            if self.events.remove(&fd).is_some() {
                Ok(())
            } else {
                Err("eperm")
            }
        } else {
            Err("eperm")
        }
    }
}

pub enum FLike {
    File(FHandle),
    Pipe(PipeNode),
    Ep(EpInst),
}

impl FLike {
    pub open spec fn in_store(&self, store: &FileStore) -> bool {
        match self {
            FLike::File(f) => f.in_store(store),
            FLike::Pipe(p) => p.in_store(store),
            FLike::Ep(e) => e.in_store(store),
        }
    }

    /// Whether what the handle refers to is in `store`.
    pub fn in_store_check(&self, store: &FileStore) -> (r: bool)
        ensures
            r == self.in_store(store),
    {
        match self {
            FLike::File(f) => f.data < store.datas.len() && f.desc < store.descs.len(),
            FLike::Pipe(p) => p.data < store.pipes.len(),
            FLike::Ep(e) => e.ready < store.sets.len() && e.new_ctl < store.sets.len(),
        }
    }

    /// The same file, pipe end or epoll instance; a file gets the given
    /// close-on-exec flag.
    pub fn dup(&self, cloexec: bool) -> (r: FLike)
        ensures
            same_object(self, &r),
            r matches FLike::File(g) ==> g.cloexec == cloexec,
    {
        match self {
            FLike::File(f) => FLike::File(f.dup(cloexec)),
            FLike::Pipe(p) => FLike::Pipe(p.dup()),
            FLike::Ep(e) => FLike::Ep(e.dup()),
        }
    }

    /// The same descriptor: the same object and, for a file, the same
    /// close-on-exec flag.
    pub fn cloned(&self) -> (r: FLike)
        ensures
            same_object(self, &r),
            (self matches FLike::File(f) ==> r matches FLike::File(g) && g.cloexec == f.cloexec),
    {
        match self {
            FLike::File(f) => FLike::File(f.dup(f.cloexec)),
            FLike::Pipe(p) => FLike::Pipe(p.dup()),
            FLike::Ep(e) => FLike::Ep(e.dup()),
        }
    }

    /// Lets go of this handle: a pipe end loses one open end.
    pub fn release(&self, store: &mut FileStore)
        requires
            self.in_store(old(store)),
            self matches FLike::Pipe(p) ==> old(store).pipes@[p.data as int].ends > i32::MIN,
        ensures
            released(self, old(store), final(store)),
    {
        match self {
            FLike::Pipe(p) => p.release(store),
            _ => {},
        }
    }

    /// Reads into `buf`: a file from its description's offset, which moves
    /// on; a pipe from its front. An empty buffer reads nothing.
    pub fn read(&self, store: &mut FileStore, buf: &mut [u8]) -> (r: Result<usize, &'static str>)
        requires
            self.in_store(old(store)),
            self matches FLike::File(f) ==> read_fits(old(store), &f, old(buf)@.len() as int),
        ensures
            old(buf)@.len() == 0 ==> r == Ok::<usize, &'static str>(0) && *final(store) == *old(store) && final(buf)@
                == old(buf)@,
            old(buf)@.len() > 0 ==> match self {
                FLike::File(f) => read_post(old(store), final(store), &f, old(buf)@, final(buf)@, r),
                FLike::Pipe(p) => pipe_read_post(old(store), final(store), &p, old(buf)@, final(buf)@, r, true),
                FLike::Ep(_) => r == Err::<usize, &'static str>("enosys") && *final(store) == *old(store)
                    && final(buf)@ == old(buf)@,
            },
    {
        if buf.len() == 0 {
            return Ok(0);
        }
        match self {
            FLike::File(f) => f.read(store, buf),
            FLike::Pipe(p) => pipe_take(store, p, buf, true),
            FLike::Ep(_) => Err("enosys"),
        }
    }

    /// Writes `buf`: to a file at its description's offset or, in append
    /// mode, at its end, leaving the offset just past what was written; to
    /// a pipe at its back, making it readable. An empty buffer writes
    /// nothing.
    pub fn write(&self, store: &mut FileStore, buf: &[u8]) -> (r: Result<usize, &'static str>)
        requires
            self.in_store(old(store)),
            self matches FLike::File(f) ==> write_off(old(store), &f) + buf@.len() <= usize::MAX,
        ensures
            buf@.len() == 0 ==> r == Ok::<usize, &'static str>(0) && *final(store) == *old(store),
            buf@.len() > 0 ==> match self {
                FLike::File(f) => {
                    let d = old(store).desc(f.desc);
                    let off = write_off(old(store), &f);
                    if !d.opt.wr {
                        r == Err::<usize, &'static str>("ebadf") && *final(store) == *old(store)
                    } else {
                        &&& r == Ok::<usize, &'static str>(buf@.len() as usize)
                        &&& final(store).data(f.data) == write_bytes(old(store).data(f.data), off as int, buf@)
                        &&& final(store).same_but_data(old(store), f.data)
                        &&& final(store).descs@ == old(store).descs@.update(
                            f.desc as int,
                            FdState { off: (off + buf@.len()) as u64, ..d },
                        )
                    }
                },
                FLike::Pipe(p) => if p.dir != PipeDir::Wr {
                    r == Ok::<usize, &'static str>(0) && *final(store) == *old(store)
                } else {
                    &&& r == Ok::<usize, &'static str>(buf@.len() as usize)
                    &&& pipe_appended(old(store), final(store), p.data, buf@, (old(store).pipes@[p.data as int].ev | EV_READABLE) as u32)
                },
                FLike::Ep(_) => r == Err::<usize, &'static str>("enosys") && *final(store) == *old(store),
            },
    {
        if buf.len() == 0 {
            return Ok(0);
        }
        match self {
            FLike::File(f) => {
                let d = store.descs[f.desc];
                if !d.opt.wr {
                    return Err("ebadf");
                }
                let off = if d.opt.ap { store.datas[f.data].len() as u64 } else { d.off } as usize;
                write_into(&mut store.datas[f.data], off, buf);
                let end = off + buf.len();
                store.descs.set(f.desc, FdState { off: end as u64, opt: d.opt, flk: d.flk });
                Ok(buf.len())
            },
            FLike::Pipe(p) => {
                if p.dir != PipeDir::Wr {
                    return Ok(0);
                }
                pipe_append(store, p.data, buf);
                let ev = store.pipes[p.data].ev | EV_READABLE;
                store.pipes[p.data].ev = ev;
                Ok(buf.len())
            },
            FLike::Ep(_) => Err("enosys"),
        }
    }

    /// Device control: files accept every request, pipes only FIONBIO.
    pub fn io_ctl(&self, req: usize, a1: usize) -> (r: Result<usize, &'static str>)
        ensures
            r == match self {
                FLike::File(_) => Ok::<usize, &'static str>(0),
                FLike::Pipe(_) => if req == 0x5421 {
                    Ok::<usize, &'static str>(0)
                } else {
                    Err::<usize, &'static str>("enotty")
                },
                FLike::Ep(_) => Err::<usize, &'static str>("enosys"),
            },
    {
        match self {
            FLike::File(f) => {
                if (req as u32) <= 0xFF {
                    Ok(0)
                } else {
                    f.io_ctl(req as u32, a1)
                }
            },
            FLike::Pipe(_) => {
                if req == 0x5421 {
                    Ok(0)
                } else {
                    Err("enotty")
                }
            },
            FLike::Ep(_) => Err("enosys"),
        }
    }

    /// Maps `[start, end)` of a file; an empty or reversed range is
    /// refused, and so is anything but a file.
    pub fn mmap_fl(&self, store: &FileStore, start: usize, end: usize, off: usize) -> (r: Result<(), &'static str>)
        requires
            self.in_store(store),
            start < end ==> end - start + 4095 <= usize::MAX,
            start < end ==> (self matches FLike::File(f) ==> store.data(f.data).len() + 4095 <= usize::MAX),
        ensures
            r == if start >= end {
                Err::<(), &'static str>("einval")
            } else if self is File {
                Ok::<(), &'static str>(())
            } else {
                Err::<(), &'static str>("enosys")
            },
    {
        if start >= end {
            return Err("einval");
        }
        match self {
            FLike::File(f) => f.mmap(start, end, off),
            _ => Err("enosys"),
        }
    }

    /// Readable, writable, failed: a file by its flags, failed when it has
    /// no path and no bytes; a pipe end by its buffer and ends; an epoll
    /// instance is readable when something is ready.
    pub fn poll(&self, store: &FileStore) -> (r: (bool, bool, bool))
        requires
            self.in_store(store),
        ensures
            r == poll_spec(self, store),
    {
        match self {
            FLike::File(f) => {
                let d = store.descs[f.desc];
                let error = f.path.len() == 0 && store.datas[f.data].len() == 0;
                (d.opt.rd, d.opt.wr, error)
            },
            FLike::Pipe(p) => {
                let d = &store.pipes[p.data];
                let has_data = d.buf.len() > 0;
                let closed = d.ends < 2;
                let can_rd = p.dir == PipeDir::Rd && (has_data || closed);
                let can_wr = p.dir == PipeDir::Wr && !closed;
                let err = closed && has_data && p.dir == PipeDir::Wr;
                (can_rd, can_wr, err)
            },
            FLike::Ep(e) => (store.sets[e.ready].len() > 0, false, false),
        }
    }
}

pub open spec fn poll_spec(fl: &FLike, store: &FileStore) -> (bool, bool, bool) {
    match fl {
        FLike::File(f) => {
            let d = store.desc(f.desc);
            (d.opt.rd, d.opt.wr, f.path@.len() == 0 && store.data(f.data).len() == 0)
        },
        FLike::Pipe(p) => {
            let pb = store.pipes@[p.data as int];
            let has_data = pb.buf@.len() > 0;
            let closed = pb.ends < 2;
            (
                p.dir == PipeDir::Rd && (has_data || closed),
                p.dir == PipeDir::Wr && !closed,
                closed && has_data && p.dir == PipeDir::Wr,
            )
        },
        FLike::Ep(e) => (store.set(e.ready).len() > 0, false, false),
    }
}

/// `s1` is `s0` after `fl` lets go of its object: for a pipe end, the
/// pipe has one end fewer and is marked closed; otherwise nothing changes.
pub open spec fn released(fl: &FLike, s0: &FileStore, s1: &FileStore) -> bool {
    match fl {
        FLike::Pipe(p) => {
            &&& s1.pipes@.len() == s0.pipes@.len()
            &&& forall|i: int| 0 <= i < s0.pipes@.len() && i != p.data ==> #[trigger] s1.pipes@[i] == s0.pipes@[i]
            &&& s1.pipe_bytes(p.data) == s0.pipe_bytes(p.data)
            &&& s1.pipes@[p.data as int].ends == s0.pipes@[p.data as int].ends - 1
            &&& s1.pipes@[p.data as int].ev == s0.pipes@[p.data as int].ev | EV_CLOSED
            &&& s1.datas@ == s0.datas@
            &&& s1.descs@ == s0.descs@
            &&& s1.sets@ == s0.sets@
        },
        _ => *s1 == *s0,
    }
}

/// `a` and `b` stand for the same open object.
pub open spec fn same_object(a: &FLike, b: &FLike) -> bool {
    match (a, b) {
        (FLike::File(f), FLike::File(g)) => f.data == g.data && f.desc == g.desc && f.path@ == g.path@ && f.pipe == g.pipe,
        (FLike::Pipe(p), FLike::Pipe(q)) => p.data == q.data && p.dir == q.dir,
        (FLike::Ep(e), FLike::Ep(h)) => e.events@ == h.events@ && e.ready == h.ready && e.new_ctl == h.new_ctl,
        _ => false,
    }
}

/// A read-only file whose bytes are given.
pub struct PseudoNode {
    pub content: Vec<u8>,
    pub ftype: u8,
}

impl PseudoNode {
    pub fn new(s: &[u8], ft: u8) -> (r: Self)
        ensures
            r.content@ == s@,
            r.ftype == ft,
    {
        PseudoNode { content: crate::mount::copy_bytes(s), ftype: ft }
    }

    pub fn read_at(&self, off: usize, buf: &mut [u8]) -> (r: usize)
        ensures
            r == read_len(self.content@.len() as int, off as int, old(buf)@.len() as int),
            final(buf)@ == read_into(old(buf)@, self.content@, off as int, r as int),
    {
        if off >= self.content.len() {
            assert(buf@ =~= read_into(old(buf)@, self.content@, off as int, 0));
            return 0;
        }
        let n = if self.content.len() - off < buf.len() { self.content.len() - off } else { buf.len() };
        copy_out(buf, &self.content, off, n);
        n
    }

    pub fn write_at(&self, off: usize, buf: &[u8]) -> (r: Result<usize, &'static str>)
        ensures
            r == Err::<usize, &'static str>("nosup"),
    {
        Err("nosup")
    }

    pub fn metadata_sz(&self) -> (r: usize)
        ensures
            r == self.content@.len(),
    {
        self.content.len()
    }
}

pub fn read_as_vec(data: &[u8]) -> (r: Vec<u8>)
    ensures
        r@ == data@,
{
    crate::mount::copy_bytes(data)
}

} // verus!
