//! The system call dispatcher. Each call checks its user pointers, then
//! answers from, or acts on, the kernel state; the current task is the one
//! on the boot CPU and the wall clock is the kernel's.
use vstd::prelude::*;
use crate::blockcache::{holds_block, without_block};
use crate::consts::{KERN_BASE, PAGE_SIZE};
use crate::fdtable::has_fd;
use crate::frame::count_free;
use crate::kernel::Kernel;
use crate::task::{Task, ids_where, signaled, exit_post, released_all, pipe_slack};
use crate::file::{FLike, FHandle, FdOpt, FdState, PipeNode, PipeDir, FileStore, released, same_object};
use crate::frame::{cyclic_first_free, none_free_in, scan_start};
use crate::pagecache::wrap_inc;
use crate::disk::Disk;
use crate::tty::{TrmIO, WinSz};

verus! {

/// The bytes of one epoll event record as user space lays it out.
pub const EP_EVENT_BYTES: usize = 16;

/// A user range that the kernel may touch: empty, or ending at or below the
/// kernel base.
pub open spec fn uok(addr: usize, len: usize) -> bool {
    len == 0 || addr + len <= KERN_BASE
}

/// The cache chain that a number hashes to.
pub open spec fn chain_at(k: Kernel, x: usize) -> Seq<(usize, Seq<u8>, bool)> {
    k.cache.view_chains()[(x % k.cache.width) as int]
}

/// Some slot of `s` holds block `id` and is modified.
pub open spec fn holds_dirty(s: Seq<(usize, Seq<u8>, bool)>, id: usize) -> bool {
    exists|j: int| 0 <= j < s.len() && (#[trigger] s[j]).0 == id && s[j].2
}

/// The task on the boot CPU, if it is in the table.
pub open spec fn cur(k: Kernel) -> Option<usize> {
    if k.cpus@.len() > 0 && k.cpus@[0] is Some && k.tasks.tasks().contains_key(k.cpus@[0]->0) {
        k.cpus@[0]
    } else {
        None
    }
}

pub open spec fn efault<T>() -> Result<T, &'static str> {
    Err("efault")
}

pub open spec fn einval<T>() -> Result<T, &'static str> {
    Err("einval")
}

pub open spec fn min_usize(a: usize, b: usize) -> usize {
    if a <= b { a } else { b }
}

// ------------------------------------------------------------ read-only calls

pub open spec fn read_result(k: Kernel, fd: usize, buf: usize, count: usize) -> Result<usize, &'static str> {
    if buf == 0 && count > 0 {
        efault()
    } else if count == 0 {
        Ok(0)
    } else if !uok(buf, count) {
        efault()
    } else if holds_block(chain_at(k, fd), fd) {
        let ps = buf & !0xfffusize;
        let pe = ((buf + count) as usize) & !0xfffusize;
        let avail = ((pe - ps) / 4096 + 1) * 4096;
        let transfer = if count <= avail { count as int } else { avail };
        Ok((transfer - if transfer > 4096 { 4096int } else { 0int }) as usize)
    } else {
        Ok(if count > 0x10000 { 0x10000usize } else { count })
    }
}

pub open spec fn stat_result(nr: usize, a0: usize, a1: usize) -> Result<usize, &'static str> {
    if a1 == 0 || !uok(a1, 144) {
        efault()
    } else if nr == crate::sysno::SYS_STAT && !uok(a0, 256) {
        efault()
    } else {
        Ok(0)
    }
}

/// `len` rounded up to whole pages.
pub open spec fn page_up(len: usize) -> usize {
    ((len + 0xfff) as usize) & !0xfffusize
}

pub open spec fn mmap_fixed(addr: usize, flags: usize) -> bool {
    addr != 0 && flags & 0x10 != 0
}

/// The address an unfixed mapping gets: a slot above 0x7000_0000 picked by
/// the clock and the descriptor, page aligned.
pub open spec fn mmap_slot(now: usize, fd: usize, al: usize) -> usize {
    let slot = (now * 4096 + fd * 4096) % ((KERN_BASE - 0x7000_0000 - al) as int);
    ((0x7000_0000 + slot) as usize) & !0xfffusize
}

/// A mapping request whose arithmetic fits.
pub open spec fn mmap_ok(addr: usize, len: usize, flags: usize, fd: usize, now: usize) -> bool {
    len != 0 ==> {
        &&& len + 0x1000 <= usize::MAX
        &&& !mmap_fixed(addr, flags) ==> {
            &&& now * 4096 + fd * 4096 <= usize::MAX
            &&& page_up(len) < KERN_BASE - 0x7000_0000
        }
    }
}

pub open spec fn mmap_result(k: Kernel, addr: usize, len: usize, flags: usize, fd: usize, offset: usize) -> Result<usize, &'static str> {
    if len == 0 {
        einval()
    } else {
        let al = page_up(len);
        let res = if mmap_fixed(addr, flags) { addr } else { mmap_slot(k.clocks.clk, fd, al) };
        if count_free(k.pool.slots@) < al / 4096 {
            Err("enomem")
        } else if flags & 0x20 == 0 && offset & !0xfffusize > al {
            einval()
        } else {
            Ok(res)
        }
    }
}

pub open spec fn munmap_ok(addr: usize, len: usize) -> bool {
    addr % 4096 == 0 ==> len + 0x1000 <= usize::MAX && (page_up(len) == 0 || addr + page_up(len) - 4096 <= usize::MAX)
}

pub open spec fn munmap_result(addr: usize) -> Result<usize, &'static str> {
    if addr % 4096 != 0 { einval() } else { Ok(0) }
}

pub open spec fn ioctl_result(cmd: usize, arg: usize) -> Result<usize, &'static str> {
    if cmd == crate::sysno::TCGETS || cmd == crate::sysno::TCSETS {
        if uok(arg, vstd::layout::size_of::<TrmIO>() as usize) { Ok(0) } else { efault() }
    } else if cmd == crate::sysno::TIOCGPGRP || cmd == crate::sysno::TIOCSPGRP || cmd == crate::sysno::FIONBIO {
        if uok(arg, 4) { Ok(0) } else { efault() }
    } else if cmd == crate::sysno::TIOCGWINSZ {
        if uok(arg, vstd::layout::size_of::<WinSz>() as usize) { Ok(0) } else { efault() }
    } else if cmd == crate::sysno::FIONCLEX || cmd == crate::sysno::FIOCLEX {
        Ok(0)
    } else {
        Err("enotty")
    }
}

/// `r` is the lowest descriptor from `from` on that `t` does not use.
pub open spec fn lowest_free_from(t: Task, from: usize, r: usize) -> bool {
    &&& from <= r
    &&& !has_fd(t.files.entries@, r)
    &&& forall|j: usize| from <= j < r ==> has_fd(t.files.entries@, j)
}

pub open spec fn dup_post(k: Kernel, old_fd: usize, r: Result<usize, &'static str>) -> bool {
    if old_fd >= 1024 {
        r == Err::<usize, &'static str>("ebadf")
    } else {
        match cur(k) {
            Some(t) => r matches Ok(v) && lowest_free_from(k.tasks.tasks()[t], old_fd, v),
            None => r == Ok::<usize, &'static str>((old_fd + 1) as usize),
        }
    }
}

pub open spec fn exec_result(a0: usize, a1: usize, a2: usize) -> Result<usize, &'static str> {
    if a0 == 0 || !uok(a0, 256) {
        efault()
    } else if a1 != 0 && !uok(a1, 512) {
        efault()
    } else if a2 != 0 && !uok(a2, 512) {
        efault()
    } else {
        Ok(0)
    }
}

/// The last id of `ids` whose task has exited.
pub open spec fn last_done(ids: Seq<usize>, m: Map<usize, Task>) -> Option<usize>
    decreases ids.len(),
{
    if ids.len() == 0 {
        None
    } else if m[ids.last()].info.status is Some {
        Some(ids.last())
    } else {
        last_done(ids.drop_last(), m)
    }
}

/// The first id of `ids` whose task has exited.
pub open spec fn first_done(ids: Seq<usize>, m: Map<usize, Task>) -> Option<usize>
    decreases ids.len(),
{
    if ids.len() == 0 {
        None
    } else if m[ids[0]].info.status is Some {
        Some(ids[0])
    } else {
        first_done(ids.drop_first(), m)
    }
}

pub open spec fn no_child(wnohang: bool) -> Result<usize, &'static str> {
    if wnohang { Ok(0) } else { Err("echild") }
}

pub open spec fn wait4_result(k: Kernel, a0: usize, a1: usize, a2: usize, a3: usize) -> Result<usize, &'static str> {
    let pid = a0 as isize;
    let wnohang = a2 & 1 != 0;
    let m = k.tasks.tasks();
    let es = k.tasks.map.entries@;
    if a1 != 0 && !uok(a1, 4) {
        efault()
    } else if a3 != 0 && !uok(a3, 144) {
        efault()
    } else if pid == -1 {
        let z = ids_where(es, |t: Task| t.info.status is Some);
        if z.len() == 0 { no_child(wnohang) } else { Ok(z[0]) }
    } else if pid == 0 {
        match cur(k) {
            Some(c) => {
                let g = ids_where(es, |t: Task| t.pgid == m[c].pgid);
                match last_done(g, m) {
                    Some(id) => Ok(id),
                    None => no_child(wnohang),
                }
            },
            None => Err("echild"),
        }
    } else if pid > 0 {
        if m.contains_key(pid as usize) {
            if m[pid as usize].info.status is Some { Ok(pid as usize) } else { no_child(wnohang) }
        } else {
            Err("echild")
        }
    } else {
        let g = ids_where(es, |t: Task| t.pgid == (-pid) as i32);
        if g.len() == 0 {
            Err("echild")
        } else {
            match first_done(g, m) {
                Some(id) => Ok(id),
                None => no_child(wnohang),
            }
        }
    }
}

pub open spec fn fcntl_result(k: Kernel, fd: usize, cmd: usize, arg: usize) -> Result<usize, &'static str> {
    let base = if fd > arg { fd } else { arg };
    if fd >= 1024 {
        Err("ebadf")
    } else if cmd == crate::sysno::F_DUPFD {
        Ok((base + (k.clocks.clk & 3)) as usize)
    } else if cmd == crate::sysno::F_DUPFD_CLOEXEC {
        Ok((base + 1) as usize)
    } else if cmd == crate::sysno::F_GETFD {
        Ok(if holds_dirty(chain_at(k, fd), fd) { 1usize } else { 0usize })
    } else if cmd == crate::sysno::F_SETFD {
        Ok(0)
    } else if cmd == crate::sysno::F_GETFL {
        Ok(if fd <= 2 { 0o6000usize } else { 0o4000usize })
    } else if cmd == crate::sysno::F_SETFL {
        if arg & !0o6000usize != 0 { einval() } else { Ok(0) }
    } else if cmd == crate::sysno::F_GETLK || cmd == crate::sysno::F_SETLK || cmd == crate::sysno::F_SETLKW {
        if uok(arg, 32) { Ok(0) } else { efault() }
    } else {
        einval()
    }
}

pub open spec fn fcntl_ok(fd: usize, cmd: usize, arg: usize, now: usize) -> bool {
    let base = if fd > arg { fd } else { arg };
    fd < 1024 ==> (cmd == crate::sysno::F_DUPFD ==> base + 3 <= usize::MAX) && (cmd == crate::sysno::F_DUPFD_CLOEXEC ==> base + 1 <= usize::MAX)
}

pub open spec fn getpid_result(k: Kernel) -> Result<usize, &'static str> {
    match cur(k) {
        Some(t) => Ok(k.tasks.tasks()[t].info.id),
        None => Ok(1),
    }
}

pub open spec fn getppid_result(k: Kernel) -> Result<usize, &'static str> {
    match cur(k) {
        Some(t) => match k.tasks.tasks()[t].parent {
            Some(p) => Ok(p),
            None => Ok(0),
        },
        None => Ok(0),
    }
}

pub open spec fn getpgid_result(k: Kernel, pid: usize) -> Result<usize, &'static str> {
    let target = if pid == 0 {
        match cur(k) {
            Some(t) => k.tasks.tasks()[t].info.id,
            None => 0,
        }
    } else {
        pid
    };
    if target == 0 {
        Err("esrch")
    } else if k.tasks.tasks().contains_key(target) {
        Ok(k.tasks.tasks()[target].pgid as usize)
    } else {
        Err("esrch")
    }
}

pub open spec fn epoll_create_result(size: usize) -> Result<usize, &'static str> {
    if size == 0 {
        einval()
    } else if size * 16 > usize::MAX {
        Err("enomem")
    } else {
        Ok((3 + size % 61) as usize)
    }
}

pub open spec fn epoll_ctl_result(op: usize, ev: usize) -> Result<usize, &'static str> {
    let o = op as i32;
    if ev != 0 && !uok(ev, 12) {
        efault()
    } else if o == 1 || o == 3 {
        if ev == 0 { efault() } else { Ok(0) }
    } else if o == 2 {
        Ok(0)
    } else {
        einval()
    }
}

pub open spec fn epoll_wait_ok(events: usize, max: usize, timeout: usize, now: usize) -> bool {
    events != 0 && max != 0 ==> {
        &&& max * 16 <= usize::MAX
        &&& uok(events, (max * 16) as usize) && (timeout as i32) > 0 ==> (timeout as i32) as usize * 100 <= usize::MAX
            && now + (timeout as i32) as usize * 100 / 1000 <= usize::MAX
    }
}

pub open spec fn epoll_wait_result(events: usize, max: usize) -> Result<usize, &'static str> {
    if events == 0 || max == 0 {
        einval()
    } else if !uok(events, (max * 16) as usize) {
        efault()
    } else {
        Ok(0)
    }
}

pub open spec fn clock_result(clk_id: usize, tp: usize) -> Result<usize, &'static str> {
    if tp == 0 || !uok(tp, 16) {
        efault()
    } else if clk_id == 0 || clk_id == 1 || clk_id == 4 {
        Ok(0)
    } else {
        einval()
    }
}

pub open spec fn sigaction_result(signo: usize, act: usize, oldact: usize) -> Result<usize, &'static str> {
    if signo == 0 || signo >= 64 {
        einval()
    } else if signo != 9 && signo != 19 {
        einval()
    } else if act != 0 && !uok(act, 32) {
        efault()
    } else if oldact != 0 && !uok(oldact, 32) {
        efault()
    } else {
        Ok(0)
    }
}

pub open spec fn futex_result(k: Kernel, uaddr: usize, op: usize, val: usize, timeout: usize, uaddr2: usize, val3: usize) -> Result<usize, &'static str> {
    let fop = op & 0xf;
    if !uok(uaddr, 4) {
        efault()
    } else if fop == 0 {
        if timeout != 0 && !uok(timeout, 16) { efault() } else { Ok(0) }
    } else if fop == 1 {
        Ok(min_usize(if val == 0 { 1 } else { val }, k.tasks.map.entries@.len() as usize))
    } else if fop == 3 {
        if !uok(uaddr2, 4) { efault() } else { Ok(min_usize((val + val3) as usize, 128)) }
    } else if fop == 5 {
        if timeout == 0 || !uok(timeout, 16) { efault() } else { Ok(0) }
    } else if fop == 9 {
        if !uok(uaddr2, 4) { efault() } else { Ok((min_usize(val, 32) + min_usize(val3, 32)) as usize) }
    } else {
        Err("enosys")
    }
}

pub open spec fn futex_ok(op: usize, val: usize, val3: usize) -> bool {
    op & 0xf == 3 ==> val + val3 <= usize::MAX
}


fn page_floor(x: usize) -> (r: usize)
    ensures
        r == x & !0xfffusize,
        r <= x,
{
    let r = x & !(PAGE_SIZE - 1);
    assert(x & !0xfffusize <= x) by (bit_vector);
    r
}

proof fn lemma_floor_mono(a: usize, b: usize)
    requires
        a <= b,
    ensures
        a & !0xfffusize <= b & !0xfffusize,
{
    assert(a <= b ==> a & !0xfffusize <= b & !0xfffusize) by (bit_vector);
}

/// Whether chain `x % width` holds block `id` (and, with `dirty`, holds
/// it modified).
fn chain_has(k: &Kernel, x: usize, id: usize, dirty: bool) -> (r: bool)
    requires
        k.wf(),
    ensures
        !dirty ==> r == holds_block(chain_at(*k, x), id),
        dirty ==> r == holds_dirty(chain_at(*k, x), id),
{
    let ci = x % k.cache.width;
    let ghost s = chain_at(*k, x);
    let n = k.cache.chains[ci].items.len();
    let mut j: usize = 0;
    while j < n
        invariant
            n == s.len(),
            ci == x % k.cache.width,
            ci < k.cache.chains@.len(),
            s == k.cache.chains@[ci as int].slots(),
            j <= n,
            forall|i: int| 0 <= i < j ==> !((#[trigger] s[i]).0 == id && (!dirty || s[i].2)),
        decreases n - j,
    {
        let e = &k.cache.chains[ci].items[j];
        assert(s[j as int] == (e.id, e.payload@, e.modified));
        if e.id == id && (!dirty || e.modified) {
            assert(s[j as int].0 == id);
            return true;
        }
        j = j + 1;
    }
    false
}

impl Kernel {
    fn sys_read(&self, fd: usize, buf_addr: usize, count: usize) -> (r: Result<usize, &'static str>)
        requires
            self.wf(),
        ensures
            r == read_result(*self, fd, buf_addr, count),
    {
        if buf_addr == 0 && count > 0 {
            return Err("efault");
        }
        if count == 0 {
            return Ok(0);
        }
        if !crate::kmem::check_access(buf_addr, count) {
            return Err("efault");
        }
        let page_start = page_floor(buf_addr);
        let page_end = page_floor(buf_addr + count);
        proof {
            lemma_floor_mono(buf_addr, (buf_addr + count) as usize);
        }
        let page_span = (page_end - page_start) / PAGE_SIZE;
        let cached = chain_has(self, fd, fd, false);
        if cached {
            let available: u128 = (page_span as u128 + 1) * (PAGE_SIZE as u128);
            let transfer: usize = if (count as u128) <= available { count } else { available as usize };
            let readahead = if transfer > PAGE_SIZE { PAGE_SIZE } else { 0 };
            return Ok(transfer - readahead);
        }
        let max_single_read = PAGE_SIZE * 16;
        if count > max_single_read {
            Ok(max_single_read)
        } else {
            Ok(count)
        }
    }

    fn sys_mmap(&self, addr: usize, len: usize, flags: usize, fd: usize, offset: usize) -> (r: Result<usize, &'static str>)
        requires
            mmap_ok(addr, len, flags, fd, self.clocks.clk),
        ensures
            r == mmap_result(*self, addr, len, flags, fd, offset),
    {
        if len == 0 {
            return Err("einval");
        }
        let aligned_len = (len + PAGE_SIZE - 1) & !(PAGE_SIZE - 1);
        let aligned_off = offset & !(PAGE_SIZE - 1);
        let map_anon = (flags & 0x20) != 0;
        let map_fixed = (flags & 0x10) != 0;
        let result_addr = if addr != 0 && map_fixed {
            addr
        } else {
            let base = 0x7000_0000usize;
            let slot = (self.clocks.clk * 4096 + fd * PAGE_SIZE) % (KERN_BASE - base - aligned_len);
            (base + slot) & !(PAGE_SIZE - 1)
        };
        let pages_needed = aligned_len / PAGE_SIZE;
        let avail = self.pool.free_count();
        if avail < pages_needed {
            return Err("enomem");
        }
        if !map_anon && aligned_off > aligned_len {
            return Err("einval");
        }
        Ok(result_addr)
    }

    fn sys_ioctl(&self, cmd: usize, arg: usize) -> (r: Result<usize, &'static str>)
        ensures
            r == ioctl_result(cmd, arg),
    {
        if cmd == crate::sysno::TCGETS || cmd == crate::sysno::TCSETS {
            if !crate::kmem::check_access(arg, core::mem::size_of::<TrmIO>()) {
                return Err("efault");
            }
            Ok(0)
        } else if cmd == crate::sysno::TIOCGPGRP || cmd == crate::sysno::TIOCSPGRP || cmd == crate::sysno::FIONBIO {
            if !crate::kmem::check_access(arg, 4) {
                return Err("efault");
            }
            Ok(0)
        } else if cmd == crate::sysno::TIOCGWINSZ {
            if !crate::kmem::check_access(arg, core::mem::size_of::<WinSz>()) {
                return Err("efault");
            }
            Ok(0)
        } else if cmd == crate::sysno::FIONCLEX || cmd == crate::sysno::FIOCLEX {
            Ok(0)
        } else {
            Err("enotty")
        }
    }

    fn sys_dup(&self, old_fd: usize) -> (r: Result<usize, &'static str>)
        requires
            self.wf(),
            cur(*self) matches Some(t) ==> self.tasks.tasks()[t].files.wf()
                && self.tasks.tasks()[t].files.entries@.len() + 1024 < usize::MAX,
        ensures
            dup_post(*self, old_fd, r),
    {
        if old_fd >= 1024 {
            return Err("ebadf");
        }
        match self.cur_task(0) {
            Some(id) => match self.tasks.find(id) {
                Some(t) => {
                    let c = t.files.free_from(old_fd);
                    Ok(c)
                },
                None => Ok(old_fd + 1),
            },
            None => Ok(old_fd + 1),
        }
    }

    fn sys_wait4(&self, a0: usize, a1: usize, a2: usize, a3: usize) -> (r: Result<usize, &'static str>)
        requires
            self.wf(),
            a0 as isize != isize::MIN,
        ensures
            r == wait4_result(*self, a0, a1, a2, a3),
    {
        let pid = a0 as isize;
        if a1 != 0 && !crate::kmem::check_access(a1, 4) {
            return Err("efault");
        }
        if a3 != 0 && !crate::kmem::check_access(a3, 144) {
            return Err("efault");
        }
        let wnohang = (a2 & 1) != 0;
        let ghost m = self.tasks.tasks();
        if pid == -1 {
            let zombies = self.tasks.zombie_tasks();
            if zombies.len() == 0 {
                return if wnohang { Ok(0) } else { Err("echild") };
            }
            return Ok(zombies[0]);
        }
        if pid == 0 {
            let c = match self.cur_task(0) {
                Some(id) => match self.tasks.find(id) {
                    Some(t) => t.pgid,
                    None => {
                        return Err("echild");
                    },
                },
                None => {
                    return Err("echild");
                },
            };
            let group = self.tasks.pgid_group(c);
            proof {
                let cid = cur(*self)->0;
                assert((|t: Task| t.pgid == c) =~= (|t: Task| t.pgid == m[cid].pgid));
            }
            let mut found: Option<usize> = None;
            let mut i: usize = 0;
            while i < group.len()
                invariant
                    self.wf(),
                    m == self.tasks.tasks(),
                    i <= group@.len(),
                    group@ == ids_where(self.tasks.map.entries@, |t: Task| t.pgid == c),
                    found == last_done(group@.take(i as int), m),
                decreases group@.len() - i,
            {
                let tid = group[i];
                proof {
                    assert(group@.take(i as int + 1).drop_last() =~= group@.take(i as int));
                    crate::task::lemma_ids_where_in(self.tasks.map.entries@, |t: Task| t.pgid == c, i as int);
                }
                match self.tasks.find(tid) {
                    Some(ch) => {
                        if ch.done() {
                            found = Some(tid);
                        }
                    },
                    None => {
                        assert(false);
                    },
                }
                i = i + 1;
            }
            assert(group@.take(group@.len() as int) =~= group@);
            return match found {
                Some(id) => Ok(id),
                None => if wnohang { Ok(0) } else { Err("echild") },
            };
        }
        if pid > 0 {
            let target = pid as usize;
            return match self.tasks.find(target) {
                Some(t) => {
                    if t.done() {
                        Ok(target)
                    } else if wnohang {
                        Ok(0)
                    } else {
                        Err("echild")
                    }
                },
                None => Err("echild"),
            };
        }
        let neg: isize = -pid;
        let pgid = neg as i32;
        let group = self.tasks.pgid_group(pgid);
        proof {
            assert((|t: Task| t.pgid == pgid) =~= (|t: Task| t.pgid == (-pid) as i32));
        }
        if group.len() == 0 {
            return Err("echild");
        }
        let mut i: usize = 0;
        assert(group@.skip(0) =~= group@);
        while i < group.len()
            invariant
                self.wf(),
                m == self.tasks.tasks(),
                i <= group@.len(),
                group@ == ids_where(self.tasks.map.entries@, |t: Task| t.pgid == pgid),
                first_done(group@, m) == first_done(group@.skip(i as int), m),
                pgid == (-pid) as i32,
                pid < -1,
                pid == a0 as isize,
                group@.len() > 0,
                !(a1 != 0 && !uok(a1, 4)),
                !(a3 != 0 && !uok(a3, 144)),
            decreases group@.len() - i,
        {
            let tid = group[i];
            proof {
                crate::task::lemma_ids_where_in(self.tasks.map.entries@, |t: Task| t.pgid == pgid, i as int);
                assert(group@.skip(i as int)[0] == tid);
                assert(group@.skip(i as int).drop_first() =~= group@.skip(i as int + 1));
            }
            match self.tasks.find(tid) {
                Some(t) => {
                    if t.done() {
                        proof {
                            assert(first_done(group@.skip(i as int), m) == Some(tid));
                            assert((|t: Task| t.pgid == pgid) =~= (|t: Task| t.pgid == (-pid) as i32));
                            assert(group@ == ids_where(self.tasks.map.entries@, |t: Task| t.pgid == (-pid) as i32));
                        }
                        return Ok(tid);
                    }
                },
                None => {
                    assert(false);
                },
            }
            i = i + 1;
        }
        if wnohang { Ok(0) } else { Err("echild") }
    }

    fn sys_fcntl(&self, fd: usize, cmd: usize, arg: usize) -> (r: Result<usize, &'static str>)
        requires
            self.wf(),
            fcntl_ok(fd, cmd, arg, self.clocks.clk),
        ensures
            r == fcntl_result(*self, fd, cmd, arg),
    {
        if fd >= 1024 {
            return Err("ebadf");
        }
        let base = if fd > arg { fd } else { arg };
        if cmd == crate::sysno::F_DUPFD {
            let clk = self.clocks.clk;
            let extra = clk & 0x3;
            assert(clk & 3 <= 3) by (bit_vector);
            Ok(base + extra)
        } else if cmd == crate::sysno::F_DUPFD_CLOEXEC {
            Ok(base + 1)
        } else if cmd == crate::sysno::F_GETFD {
            let cloexec = chain_has(self, fd, fd, true);
            Ok(if cloexec { crate::sysno::FD_CLOEXEC } else { 0 })
        } else if cmd == crate::sysno::F_SETFD {
            Ok(0)
        } else if cmd == crate::sysno::F_GETFL {
            Ok(if fd <= 2 { 0o6000usize } else { 0o4000usize })
        } else if cmd == crate::sysno::F_SETFL {
            let valid_mask: usize = 0o6000;
            if arg & !valid_mask != 0 {
                return Err("einval");
            }
            Ok(0)
        } else if cmd == crate::sysno::F_GETLK || cmd == crate::sysno::F_SETLK || cmd == crate::sysno::F_SETLKW {
            if !crate::kmem::check_access(arg, 32) {
                return Err("efault");
            }
            Ok(0)
        } else {
            Err("einval")
        }
    }

    /// The task on the boot CPU, if it is in the table.
    fn current(&self) -> (r: Option<usize>)
        requires
            self.wf(),
        ensures
            r == cur(*self),
    {
        match self.cur_task(0) {
            Some(id) => {
                if self.tasks.map.contains_key(id) {
                    assert(self.tasks.tasks().dom().contains(id));
                    Some(id)
                } else {
                    assert(!self.tasks.tasks().dom().contains(id));
                    None
                }
            },
            None => None,
        }
    }

    fn sys_getpid(&self) -> (r: Result<usize, &'static str>)
        requires
            self.wf(),
        ensures
            r == getpid_result(*self),
    {
        match self.current() {
            Some(id) => match self.tasks.find(id) {
                Some(t) => Ok(t.id()),
                None => Ok(1),
            },
            None => Ok(1),
        }
    }

    fn sys_getppid(&self) -> (r: Result<usize, &'static str>)
        requires
            self.wf(),
        ensures
            r == getppid_result(*self),
    {
        match self.current() {
            Some(id) => match self.tasks.find(id) {
                Some(t) => match t.parent {
                    Some(p) => Ok(p),
                    None => Ok(0),
                },
                None => Ok(0),
            },
            None => Ok(0),
        }
    }

    fn sys_getpgid(&self, pid: usize) -> (r: Result<usize, &'static str>)
        requires
            self.wf(),
        ensures
            r == getpgid_result(*self, pid),
    {
        let target = if pid == 0 {
            match self.current() {
                Some(id) => match self.tasks.find(id) {
                    Some(t) => t.id(),
                    None => 0,
                },
                None => 0,
            }
        } else {
            pid
        };
        if target == 0 {
            return Err("esrch");
        }
        match self.tasks.find(target) {
            Some(t) => Ok(t.pgid as usize),
            None => Err("esrch"),
        }
    }

    fn sys_futex(&self, uaddr: usize, op: usize, val: usize, timeout: usize, uaddr2: usize, val3: usize) -> (r: Result<usize, &'static str>)
        requires
            futex_ok(op, val, val3),
        ensures
            r == futex_result(*self, uaddr, op, val, timeout, uaddr2, val3),
    {
        if !crate::kmem::check_access(uaddr, 4) {
            return Err("efault");
        }
        let futex_op = op & 0xF;
        if futex_op == 0 {
            if timeout != 0 && !crate::kmem::check_access(timeout, 16) {
                return Err("efault");
            }
            Ok(0)
        } else if futex_op == 1 {
            let wake_count = if val == 0 { 1 } else { val };
            let n = self.tasks.count();
            Ok(if wake_count <= n { wake_count } else { n })
        } else if futex_op == 3 {
            if !crate::kmem::check_access(uaddr2, 4) {
                return Err("efault");
            }
            let s = val + val3;
            Ok(if s <= 128 { s } else { 128 })
        } else if futex_op == 5 {
            if timeout == 0 {
                return Err("efault");
            }
            if !crate::kmem::check_access(timeout, 16) {
                return Err("efault");
            }
            Ok(0)
        } else if futex_op == 9 {
            if !crate::kmem::check_access(uaddr2, 4) {
                return Err("efault");
            }
            let move_count = if val3 <= 32 { val3 } else { 32 };
            let wake_count = if val <= 32 { val } else { 32 };
            Ok(wake_count + move_count)
        } else {
            Err("enosys")
        }
    }
}


// ------------------------------------------------------------ state changes

/// The first slot of `s` that holds block `id`, marked modified.
pub open spec fn mark_first(s: Seq<(usize, Seq<u8>, bool)>, id: usize) -> Seq<(usize, Seq<u8>, bool)>
    decreases s.len(),
{
    if s.len() == 0 {
        s
    } else if s[0].0 == id {
        seq![(s[0].0, s[0].1, true)] + s.drop_first()
    } else {
        seq![s[0]] + mark_first(s.drop_first(), id)
    }
}

/// The bytes a write of `count` from `buf` reports.
pub open spec fn write_len(buf: usize, count: usize) -> usize {
    let off = buf & 0xfffusize;
    let rem = 4096 - off;
    if count <= rem {
        count
    } else {
        (rem + (count - rem) / 4096 * 4096 + (count - rem) % 4096 + off) as usize
    }
}

/// The pointer checks a read or write makes: `None` when they pass.
pub open spec fn rw_check(buf: usize, count: usize) -> Option<Result<usize, &'static str>> {
    if buf == 0 && count > 0 {
        Some(efault())
    } else if count == 0 {
        Some(Ok(0))
    } else if !uok(buf, count) {
        Some(efault())
    } else {
        None
    }
}

pub open spec fn write_post(k0: Kernel, k1: Kernel, fd: usize, buf: usize, count: usize, r: Result<usize, &'static str>) -> bool {
    match rw_check(buf, count) {
        Some(e) => r == e && k1 == k0,
        None => {
            let ci = (fd % k0.cache.width) as int;
            &&& r == Ok::<usize, &'static str>(write_len(buf, count))
            &&& k1 == (Kernel { cache: k1.cache, disk: k1.disk, ..k0 })
            &&& k1.cache.wf()
            &&& k1.cache.width == k0.cache.width
            &&& k1.cache.view_chains() == k0.cache.view_chains().update(ci, mark_first(k0.cache.view_chains()[ci], fd))
            &&& k1.disk == (Disk { ops: if fd <= 2 { wrap_inc(k0.disk.ops) } else { k0.disk.ops }, ..k0.disk })
        },
    }
}

pub open spec fn close_post(k0: Kernel, k1: Kernel, fd: usize, r: Result<usize, &'static str>) -> bool {
    if fd > 1024 {
        r == Err::<usize, &'static str>("ebadf") && k1 == k0
    } else {
        let ci = (fd % k0.cache.width) as int;
        &&& r == Ok::<usize, &'static str>(0)
        &&& k1 == (Kernel { cache: k1.cache, disk: k1.disk, ..k0 })
        &&& k1.cache.wf()
        &&& k1.cache.width == k0.cache.width
        &&& k1.cache.view_chains() == k0.cache.view_chains().update(ci, without_block(k0.cache.view_chains()[ci], fd))
        &&& k1.disk == (Disk {
            ops: if holds_block(k0.cache.view_chains()[ci], fd) { wrap_inc(k0.disk.ops) } else { k0.disk.ops },
            ..k0.disk
        })
    }
}

/// `fl` is the file that `open` makes: an anonymous file on a new empty
/// data object and a new description.
pub open spec fn new_anon_file(fl: FLike, s0: FileStore, cloexec: bool) -> bool {
    &&& fl matches FLike::File(h)
    &&& h.path@ == seq![0x61u8, 0x6e, 0x6f, 0x6e]
    &&& h.data == s0.datas@.len()
    &&& h.desc == s0.descs@.len()
    &&& !h.pipe
    &&& h.cloexec == cloexec
}

/// The options an open with `flags` asks for.
pub open spec fn open_opt(flags: usize) -> FdOpt {
    let acc = flags & 3;
    FdOpt { rd: acc == 0 || acc == 2, wr: acc == 1 || acc == 2, ap: flags & 0o2000 != 0, nb: flags & 0o4000 != 0 }
}

/// `k1` is `k0` with task `t` replaced and the rest of the table unchanged.
pub open spec fn only_task(k0: Kernel, k1: Kernel, t: usize) -> bool {
    &&& k1.tasks.wf()
    &&& k1.tasks.seq == k0.tasks.seq
    &&& k1.tasks.root == k0.tasks.root
    &&& k1.tasks.tasks().dom() == k0.tasks.tasks().dom()
    &&& forall|k: usize| k != t ==> #[trigger] k1.tasks.tasks()[k] == k0.tasks.tasks()[k]
}

pub open spec fn open_post(k0: Kernel, k1: Kernel, path: usize, flags: usize, r: Result<usize, &'static str>) -> bool {
    if path == 0 || !uok(path, 256) {
        r == efault::<usize>() && k1 == k0
    } else if flags & 0o100 != 0 && flags & 0o200 != 0 && holds_block(chain_at(k0, path), path) {
        r == Err::<usize, &'static str>("eexist") && k1 == k0
    } else {
        match cur(k0) {
            None => r == Ok::<usize, &'static str>((3 + path % 64) as usize) && k1 == k0,
            Some(t) => {
                let f0 = k0.tasks.tasks()[t].files;
                let t1 = k1.tasks.tasks()[t];
                let s0 = k0.store;
                &&& r matches Ok(fd) && lowest_free_from(k0.tasks.tasks()[t], 0, fd)
                    && t1.files.view_map().dom() == f0.view_map().dom().insert(fd)
                    && new_anon_file(t1.files.view_map()[fd], s0, flags & 0o2000000 != 0)
                    && forall|j: usize| j != fd && #[trigger] f0.view_map().contains_key(j) ==> t1.files.view_map()[j] == f0.view_map()[j]
                &&& t1.files.wf()
                &&& t1 == (Task { files: t1.files, ..k0.tasks.tasks()[t] })
                &&& only_task(k0, k1, t)
                &&& k1.store.datas@.len() == s0.datas@.len() + 1
                &&& k1.store.data(s0.datas@.len() as usize).len() == 0
                &&& forall|i: int| 0 <= i < s0.datas@.len() ==> #[trigger] k1.store.datas@[i] == s0.datas@[i]
                &&& k1.store.descs@ == s0.descs@.push(FdState { off: 0, opt: open_opt(flags), flk: 0 })
                &&& k1.store.pipes@ == s0.pipes@
                &&& k1.store.sets@ == s0.sets@
                &&& k1 == (Kernel { tasks: k1.tasks, store: k1.store, ..k0 })
            },
        }
    }
}

/// One step of the frame allocator from `start`: the first free slot met
/// by a scan from there is taken, if there is one.
pub open spec fn falloc_step(s0: Seq<bool>, s1: Seq<bool>, start: int) -> bool {
    &&& none_free_in(s0, 0, s0.len() as int) ==> s1 == s0
    &&& !none_free_in(s0, 0, s0.len() as int) ==> exists|i: int| #[trigger] cyclic_first_free(s0, start, i) && s1 == s0.update(i, false)
}

/// `ps` runs the frame allocator step by step from `start`.
pub open spec fn falloc_chain(ps: Seq<Seq<bool>>, start: int) -> bool {
    forall|i: int| 0 <= i < ps.len() - 1 ==> #[trigger] falloc_step(ps[i], ps[i + 1], start)
}

pub open spec fn brk_post(k0: Kernel, k1: Kernel, new_brk: usize, r: Result<usize, &'static str>) -> bool {
    let aligned = page_up(new_brk);
    if new_brk == 0 {
        r == Ok::<usize, &'static str>(0x40_0000) && k1 == k0
    } else if new_brk >= KERN_BASE {
        r == Err::<usize, &'static str>("enomem") && k1 == k0
    } else {
        match cur(k0) {
            None => r == Ok::<usize, &'static str>(aligned) && k1 == k0,
            Some(t) => {
                let old_brk = k0.tasks.tasks()[t].vm_token;
                let need = (aligned - old_brk) / 4096;
                if aligned > old_brk && count_free(k0.pool.slots@) < need {
                    r == Err::<usize, &'static str>("enomem") && k1 == k0
                } else {
                    &&& r == Ok::<usize, &'static str>(aligned)
                    &&& only_task(k0, k1, t)
                    &&& k1.tasks.tasks()[t] == (Task { vm_token: aligned, ..k0.tasks.tasks()[t] })
                    &&& k1.pool.cap == k0.pool.cap
                    &&& aligned <= old_brk ==> k1.pool == k0.pool
                    &&& aligned > old_brk ==> exists|ps: Seq<Seq<bool>>| #[trigger] falloc_chain(ps, scan_start(k0.clocks.clk, k0.pool.slots@.len()))
                        && ps.len() == need + 1 && ps[0] == k0.pool.slots@ && ps.last() == k1.pool.slots@
                    &&& k1 == (Kernel { tasks: k1.tasks, pool: k1.pool, ..k0 })
                }
            },
        }
    }
}

/// `a` is the lowest descriptor `t` does not use and `b` the next.
pub open spec fn two_lowest(t: Task, a: usize, b: usize) -> bool {
    &&& lowest_free_from(t, 0, a)
    &&& b != a && !has_fd(t.files.entries@, b)
    &&& forall|q: usize| q < b && q != a ==> has_fd(t.files.entries@, q)
}

pub open spec fn pipe_post(k0: Kernel, k1: Kernel, fds: usize, r: Result<usize, &'static str>) -> bool {
    if fds == 0 || !uok(fds, 8) {
        r == efault::<usize>() && k1 == k0
    } else {
        match cur(k0) {
            None => r == Err::<usize, &'static str>("esrch") && k1 == k0,
            Some(t) => {
                let f0 = k0.tasks.tasks()[t].files;
                if f0.entries@.len() + 2 > 256 {
                    r == Err::<usize, &'static str>("emfile") && k1 == k0
                } else {
                    let t1 = k1.tasks.tasks()[t];
                    let np = k0.store.pipes@.len();
                    exists|a: usize, b: usize| {
                        &&& #[trigger] two_lowest(k0.tasks.tasks()[t], a, b)
                        &&& r == Ok::<usize, &'static str>((((a as u64) | ((b as u64) << 32u64)) as usize))
                        &&& t1.files.view_map() == f0.view_map()
                            .insert(a, FLike::Pipe(PipeNode { data: np as usize, dir: PipeDir::Rd }))
                            .insert(b, FLike::Pipe(PipeNode { data: np as usize, dir: PipeDir::Wr }))
                        &&& t1.files.wf()
                        &&& t1 == (Task { files: t1.files, ..k0.tasks.tasks()[t] })
                        &&& only_task(k0, k1, t)
                        &&& k1.store.pipes@.len() == np + 1
                        &&& k1.store.pipe_bytes(np as usize).len() == 0
                        &&& k1.store.pipes@[np as int].ends == 2
                        &&& k1.store.pipes@[np as int].ev == 0
                        &&& forall|i: int| 0 <= i < np ==> #[trigger] k1.store.pipes@[i] == k0.store.pipes@[i]
                        &&& k1.store.datas@ == k0.store.datas@
                        &&& k1.store.descs@ == k0.store.descs@
                        &&& k1.store.sets@ == k0.store.sets@
                        &&& k1 == (Kernel { tasks: k1.tasks, store: k1.store, ..k0 })
                    }
                }
            },
        }
    }
}

pub open spec fn dup2_post(k0: Kernel, k1: Kernel, old_fd: usize, new_fd: usize, r: Result<usize, &'static str>) -> bool {
    if old_fd >= 1024 || new_fd >= 1024 {
        r == Err::<usize, &'static str>("ebadf") && k1 == k0
    } else if old_fd == new_fd {
        r == Ok::<usize, &'static str>(new_fd) && k1 == k0
    } else {
        match cur(k0) {
            None => r == Ok::<usize, &'static str>(new_fd) && k1 == k0,
            Some(t) => {
                let f0 = k0.tasks.tasks()[t].files.view_map();
                let t1 = k1.tasks.tasks()[t];
                &&& only_task(k0, k1, t)
                &&& t1.files.wf()
                &&& t1 == (Task { files: t1.files, ..k0.tasks.tasks()[t] })
                &&& k1 == (Kernel { tasks: k1.tasks, store: k1.store, ..k0 })
                &&& if f0.contains_key(old_fd) {
                    &&& r == Ok::<usize, &'static str>(new_fd)
                    &&& exists|g: FLike| #[trigger] same_object(&f0[old_fd], &g) && (g matches FLike::File(h) ==> !h.cloexec)
                        && t1.files.view_map() == f0.insert(new_fd, g)
                    &&& exists|mid: FileStore| #[trigger] released(&f0[old_fd], &k0.store, &mid) && if f0.contains_key(new_fd) {
                        released(&f0[new_fd], &mid, &k1.store)
                    } else {
                        k1.store == mid
                    }
                } else {
                    &&& r == Err::<usize, &'static str>("ebadf")
                    &&& t1.files.view_map() == f0.remove(new_fd)
                    &&& if f0.contains_key(new_fd) { released(&f0[new_fd], &k0.store, &k1.store) } else { k1.store == k0.store }
                }
            },
        }
    }
}

pub open spec fn fork_ok(k: Kernel) -> bool {
    &&& count_free(k.pool.slots@) <= crate::consts::N_FRAMES
    &&& k.tasks.map.entries@.len() * 2 + 256 <= usize::MAX
}

pub open spec fn fork_post(k0: Kernel, k1: Kernel, r: Result<usize, &'static str>) -> bool {
    let free = count_free(k0.pool.slots@);
    let cost = min_usize(free as usize, 256) + k0.tasks.map.entries@.len() * 2;
    let used = crate::consts::N_FRAMES - free;
    &&& k1 == (Kernel {
        tasks: crate::task::TaskTable { seq: vstd::wrapping::usize_specs::wrapping_add(k0.tasks.seq, 1), ..k0.tasks },
        ..k0
    })
    &&& r == if used * 100 / (crate::consts::N_FRAMES as int) > 90 {
        Err::<usize, &'static str>("enomem")
    } else if free < cost / 4096 {
        Err::<usize, &'static str>("enomem")
    } else {
        Ok::<usize, &'static str>(k0.tasks.seq)
    }
}

/// `after` is `before` once task 1, if in the table, takes `kids` as its
/// children: each of them that is in the table gets task 1 as parent, and
/// task 1 gets them appended.
pub open spec fn reparented(before: Map<usize, Task>, after: Map<usize, Task>, kids: Seq<usize>) -> bool {
    if !before.contains_key(1) {
        after == before
    } else {
        &&& after.dom() == before.dom()
        &&& forall|k: usize| #[trigger] after.contains_key(k) ==> {
            &&& after[k].parent == if kids.contains(k) { Some(1usize) } else { before[k].parent }
            &&& after[k].subtasks@ == if k == 1 { before[k].subtasks@ + kids } else { before[k].subtasks@ }
            &&& after[k] == (Task { parent: after[k].parent, subtasks: after[k].subtasks, ..before[k] })
        }
    }
}

/// `after` is `before` with `signo` from `sender` queued on `p`, if `p`
/// names a task of the map.
pub open spec fn signal_step(before: Map<usize, Task>, after: Map<usize, Task>, p: Option<usize>, signo: i32, sender: isize) -> bool {
    if p is Some && before.contains_key(p->0) {
        &&& after.dom() == before.dom()
        &&& signaled(before[p->0], after[p->0], signo, sender)
        &&& forall|k: usize| k != p->0 && #[trigger] before.contains_key(k) ==> after[k] == before[k]
    } else {
        after == before
    }
}

pub open spec fn exit_ok(k: Kernel) -> bool {
    cur(k) matches Some(t) ==> k.tasks.tasks()[t].files_in(&k.store)
        && pipe_slack(&k.store, k.tasks.tasks()[t].files.entries@.len() as int)
}

pub open spec fn exit_call_post(k0: Kernel, k1: Kernel, status: usize, r: Result<usize, &'static str>) -> bool {
    &&& r == Ok::<usize, &'static str>(0)
    &&& match cur(k0) {
        None => k1 == k0,
        Some(t) => {
            let m0 = k0.tasks.tasks();
            &&& k1.tasks.wf()
            &&& k1.tasks.seq == k0.tasks.seq
            &&& k1.tasks.root == k0.tasks.root
            &&& exists|m1: Map<usize, Task>, m2: Map<usize, Task>| {
                &&& #[trigger] exit_post(m0, m1, t, status)
                &&& #[trigger] signal_step(m1, m2, m0[t].parent, 17, m0[t].info.id as isize)
                &&& reparented(m2, k1.tasks.tasks(), m0[t].subtasks@)
            }
            &&& released_all(m0[t].files.entries@, &k0.store, &k1.store)
            &&& k1 == (Kernel { tasks: k1.tasks, store: k1.store, ..k0 })
        },
    }
}

/// The ids of `ids` above 1, in order.
pub open spec fn above_one(ids: Seq<usize>) -> Seq<usize>
    decreases ids.len(),
{
    if ids.len() == 0 {
        ids
    } else {
        let r = above_one(ids.drop_last());
        if ids.last() > 1 { r.push(ids.last()) } else { r }
    }
}

/// `k1` is `k0` with `signo` queued (sender -1) on each task of `ids` and
/// on no other.
pub open spec fn signaled_set(k0: Kernel, k1: Kernel, ids: Seq<usize>, signo: i32) -> bool {
    &&& k1.tasks.wf()
    &&& k1.tasks.seq == k0.tasks.seq
    &&& k1.tasks.root == k0.tasks.root
    &&& k1.tasks.tasks().dom() == k0.tasks.tasks().dom()
    &&& forall|k: usize| #[trigger] k1.tasks.tasks().contains_key(k) ==> if ids.contains(k) {
        signaled(k0.tasks.tasks()[k], k1.tasks.tasks()[k], signo, -1isize)
    } else {
        k1.tasks.tasks()[k] == k0.tasks.tasks()[k]
    }
    &&& k1 == (Kernel { tasks: k1.tasks, ..k0 })
}

pub open spec fn kill_post(k0: Kernel, k1: Kernel, a0: usize, sig: usize, r: Result<usize, &'static str>) -> bool {
    let pid = a0 as isize;
    let es = k0.tasks.map.entries@;
    let m = k0.tasks.tasks();
    let target = if pid < 0 { (-pid) as usize } else { pid as usize };
    if sig > 64 {
        r == einval::<usize>() && k1 == k0
    } else if (sig == 9 || sig == 19) && target <= 1 {
        r == Err::<usize, &'static str>("eperm") && k1 == k0
    } else if pid == 0 {
        match cur(k0) {
            None => r == Ok::<usize, &'static str>(0) && k1 == k0,
            Some(c) => {
                let g = ids_where(es, |t: Task| t.pgid == m[c].pgid);
                r == Ok::<usize, &'static str>(g.len() as usize) && signaled_set(k0, k1, g, sig as i32)
            },
        }
    } else if pid == -1 {
        let g = above_one(ids_where(es, |t: Task| t.info.status is None));
        signaled_set(k0, k1, g, sig as i32) && r == if g.len() == 0 {
            Err::<usize, &'static str>("esrch")
        } else {
            Ok::<usize, &'static str>(g.len() as usize)
        }
    } else if pid > 0 {
        if !m.contains_key(pid as usize) {
            r == Err::<usize, &'static str>("esrch") && k1 == k0
        } else if m[pid as usize].info.status is Some && sig != 0 {
            r == Err::<usize, &'static str>("esrch") && k1 == k0
        } else {
            r == Ok::<usize, &'static str>(0) && signaled_set(k0, k1, seq![pid as usize], sig as i32)
        }
    } else {
        let g = ids_where(es, |t: Task| t.pgid == (-pid) as i32);
        signaled_set(k0, k1, g, sig as i32) && r == if g.len() == 0 {
            Err::<usize, &'static str>("esrch")
        } else {
            Ok::<usize, &'static str>(g.len() as usize)
        }
    }
}

pub open spec fn setpgid_post(k0: Kernel, k1: Kernel, pid: usize, pgid: usize, r: Result<usize, &'static str>) -> bool {
    let m = k0.tasks.tasks();
    let caller = match cur(k0) {
        Some(t) => m[t].info.id,
        None => 1,
    };
    let target = if pid == 0 { caller } else { pid };
    let new_pgid = if pgid == 0 { target } else { pgid };
    if target != caller && (!m.contains_key(target) || m[target].parent != Some(caller)) {
        r == Err::<usize, &'static str>("esrch") && k1 == k0
    } else if m.contains_key(target) {
        &&& r == Ok::<usize, &'static str>(0)
        &&& only_task(k0, k1, target)
        &&& k1.tasks.tasks()[target] == (Task { pgid: new_pgid as i32, ..m[target] })
        &&& k1 == (Kernel { tasks: k1.tasks, ..k0 })
    } else {
        r == Ok::<usize, &'static str>(0) && k1 == k0
    }
}

pub open spec fn setsid_post(k0: Kernel, k1: Kernel, r: Result<usize, &'static str>) -> bool {
    match cur(k0) {
        None => r == Err::<usize, &'static str>("esrch") && k1 == k0,
        Some(c) => {
            let t = k0.tasks.tasks()[c];
            if t.pgid as usize == t.info.id {
                r == Err::<usize, &'static str>("eperm") && k1 == k0
            } else {
                &&& r == Ok::<usize, &'static str>(t.info.id)
                &&& only_task(k0, k1, c)
                &&& k1.tasks.tasks()[c] == (Task { pgid: t.info.id as i32, ..t })
                &&& k1 == (Kernel { tasks: k1.tasks, ..k0 })
            }
        },
    }
}

/// The signals no mask can block.
pub open spec fn unmaskable() -> u64 {
    0x80200
}

pub open spec fn sigprocmask_post(k0: Kernel, k1: Kernel, how: usize, set: usize, oldset: usize, r: Result<usize, &'static str>) -> bool {
    if set != 0 && !uok(set, 8) {
        r == efault::<usize>() && k1 == k0
    } else if oldset != 0 && !uok(oldset, 8) {
        r == efault::<usize>() && k1 == k0
    } else {
        match cur(k0) {
            Some(c) if set != 0 => {
                let t = k0.tasks.tasks()[c];
                let ns = set as u64;
                if how > 2 {
                    r == einval::<usize>() && k1 == k0
                } else {
                    let mask = if how == 0 {
                        (t.sig_mask | ns) & !unmaskable()
                    } else if how == 1 {
                        t.sig_mask & !ns
                    } else {
                        ns & !unmaskable()
                    };
                    &&& r == Ok::<usize, &'static str>(0)
                    &&& only_task(k0, k1, c)
                    &&& k1.tasks.tasks()[c] == (Task { sig_mask: mask, ..t })
                    &&& k1 == (Kernel { tasks: k1.tasks, ..k0 })
                }
            },
            _ => r == Ok::<usize, &'static str>(0) && k1 == k0,
        }
    }
}


proof fn lemma_mark_first_at(s: Seq<(usize, Seq<u8>, bool)>, id: usize, j: int)
    requires
        0 <= j < s.len(),
        s[j].0 == id,
        forall|i: int| 0 <= i < j ==> s[i].0 != id,
    ensures
        mark_first(s, id) == s.update(j, (s[j].0, s[j].1, true)),
    decreases j,
{
    if j == 0 {
        assert(seq![(s[0].0, s[0].1, true)] + s.drop_first() =~= s.update(0, (s[0].0, s[0].1, true)));
    } else {
        lemma_mark_first_at(s.drop_first(), id, j - 1);
        assert(seq![s[0]] + s.drop_first().update(j - 1, (s[j].0, s[j].1, true)) =~= s.update(j, (s[j].0, s[j].1, true)));
    }
}

proof fn lemma_mark_first_none(s: Seq<(usize, Seq<u8>, bool)>, id: usize)
    requires
        forall|i: int| 0 <= i < s.len() ==> s[i].0 != id,
    ensures
        mark_first(s, id) == s,
    decreases s.len(),
{
    if s.len() > 0 {
        lemma_mark_first_none(s.drop_first(), id);
        assert(seq![s[0]] + s.drop_first() =~= s);
    }
}

impl Kernel {
    fn sys_write(&mut self, fd: usize, buf_addr: usize, count: usize) -> (r: Result<usize, &'static str>)
        requires
            old(self).wf(),
        ensures
            final(self).wf(),
            write_post(*old(self), *final(self), fd, buf_addr, count, r),
    {
        if buf_addr == 0 && count > 0 {
            return Err("efault");
        }
        if count == 0 {
            return Ok(0);
        }
        if !crate::kmem::check_access(buf_addr, count) {
            return Err("efault");
        }
        let page_off = buf_addr & (PAGE_SIZE - 1);
        assert(buf_addr & 0xfffusize <= 0xfff) by (bit_vector);
        let remaining_in_page = PAGE_SIZE - page_off;
        let actual_len = if count <= remaining_in_page {
            count
        } else {
            let full_pages = (count - remaining_in_page) / PAGE_SIZE;
            let tail = (count - remaining_in_page) % PAGE_SIZE;
            assert(full_pages * 4096 + tail == count - remaining_in_page) by (nonlinear_arith)
                requires
                    full_pages == (count - remaining_in_page) / 4096,
                    tail == (count - remaining_in_page) % 4096,
                    count - remaining_in_page >= 0;
            proof {
                crate::kmem::lemma_kern_base_room();
            }
            remaining_in_page + full_pages * PAGE_SIZE + tail + page_off
        };
        let ci = fd % self.cache.width;
        let ghost before = self.cache.view_chains();
        let n = self.cache.chains[ci].items.len();
        let mut j: usize = 0;
        while j < n
            invariant_except_break
                forall|i: int| 0 <= i < j ==> (#[trigger] before[ci as int][i]).0 != fd,
            invariant
                self.cache.wf(),
                ci == fd % self.cache.width,
                ci < self.cache.chains@.len(),
                n == before[ci as int].len(),
                self.cache.view_chains() == before,
                j <= n,
            ensures
                forall|i: int| 0 <= i < j ==> (#[trigger] before[ci as int][i]).0 != fd,
                j < n ==> before[ci as int][j as int].0 == fd,
            decreases n - j,
        {
            if self.cache.chains[ci].items[j].id == fd {
                assert(before[ci as int][j as int].0 == fd);
                break;
            }
            j = j + 1;
        }
        if j < n {
            proof {
                lemma_mark_first_at(before[ci as int], fd, j as int);
            }
            self.cache.chains[ci].items[j].modified = true;
            assert(self.cache.view_chains() =~= before.update(ci as int, mark_first(before[ci as int], fd))) by {
                assert(self.cache.chains@[ci as int].slots() =~= mark_first(before[ci as int], fd));
            }
        } else {
            proof {
                lemma_mark_first_none(before[ci as int], fd);
                assert(before.update(ci as int, mark_first(before[ci as int], fd)) =~= before);
            }
        }
        if fd <= 2 {
            self.disk.ops = crate::pagecache::bump(self.disk.ops);
        }
        Ok(actual_len)
    }

    fn sys_close(&mut self, fd: usize) -> (r: Result<usize, &'static str>)
        requires
            old(self).wf(),
        ensures
            final(self).wf(),
            close_post(*old(self), *final(self), fd, r),
    {
        if fd > crate::sysno::N_PROC * 4 {
            return Err("ebadf");
        }
        let was_cached = chain_has(self, fd, fd, false);
        self.cache.invalidate(fd);
        if was_cached {
            self.disk.ops = crate::pagecache::bump(self.disk.ops);
        }
        Ok(0)
    }

    fn sys_brk(&mut self, new_brk: usize) -> (r: Result<usize, &'static str>)
        requires
            old(self).wf(),
        ensures
            final(self).wf(),
            brk_post(*old(self), *final(self), new_brk, r),
    {
        if new_brk == 0 {
            return Ok(0x0040_0000);
        }
        if new_brk >= KERN_BASE {
            return Err("enomem");
        }
        proof {
            crate::kmem::lemma_kern_base_room();
        }
        let aligned = (new_brk + PAGE_SIZE - 1) & !(PAGE_SIZE - 1);
        let t = match self.current() {
            Some(t) => t,
            None => {
                return Ok(aligned);
            },
        };
        let old_brk = match self.tasks.find(t) {
            Some(task) => task.vm_token,
            None => {
                return Ok(aligned);
            },
        };
        let ghost start = scan_start(self.clocks.clk, self.pool.slots@.len());
        if aligned > old_brk {
            let pages_needed = (aligned - old_brk) / PAGE_SIZE;
            let free = self.pool.free_count();
            if free < pages_needed {
                return Err("enomem");
            }
            let ghost mut ps: Seq<Seq<bool>> = seq![self.pool.slots@];
            let plen = self.pool.slots.len();
            let clk = self.clocks.clk;
            if plen > 0 {
                assert(clk % plen < plen) by (nonlinear_arith)
                    requires
                        plen > 0;
            }
            assert(0 <= start <= self.pool.slots@.len());
            let mut p: usize = 0;
            while p < pages_needed
                invariant
                    p <= pages_needed,
                    ps.len() == p + 1,
                    ps[0] == old(self).pool.slots@,
                    ps.last() == self.pool.slots@,
                    falloc_chain(ps, start),
                    start == scan_start(self.clocks.clk, self.pool.slots@.len()),
                    0 <= start <= self.pool.slots@.len(),
                    self.pool.cap == old(self).pool.cap,
                    self.pool.slots@.len() == old(self).pool.slots@.len(),
                    *self == (Kernel { pool: self.pool, ..*old(self) }),
                decreases pages_needed - p,
            {
                let ghost s0 = self.pool.slots@;
                let _frame = crate::frame::frame_alloc(&mut self.pool, self.clocks.clk);
                proof {
                    assert(falloc_step(s0, self.pool.slots@, start));
                    if !none_free_in(s0, 0, s0.len() as int) {
                        let i = choose|i: int| #[trigger] cyclic_first_free(s0, start, i) && self.pool.slots@ == s0.update(i, false);
                        assert(self.pool.slots@.len() == s0.len());
                    }
                    let ps2 = ps.push(self.pool.slots@);
                    assert forall|i: int| 0 <= i < ps2.len() - 1 implies #[trigger] falloc_step(ps2[i], ps2[i + 1], start) by {
                        if i < ps.len() - 1 {
                            assert(ps2[i] == ps[i] && ps2[i + 1] == ps[i + 1]);
                        }
                    }
                    ps = ps2;
                }
                p = p + 1;
            }
        }
        let ghost m0 = self.tasks.tasks();
        match self.tasks.map.remove(t) {
            Some(mut task) => {
                task.vm_token = aligned;
                let _ = self.tasks.map.insert(t, task);
                proof {
                    assert(self.tasks.tasks().dom() =~= m0.dom());
                }
            },
            None => {},
        }
        Ok(aligned)
    }
}


impl Kernel {
    /// Takes task `t` out of the table, to be put back with `put_task`.
    fn take_cur(&mut self, t: usize) -> (r: Task)
        requires
            old(self).wf(),
            old(self).tasks.tasks().contains_key(t),
        ensures
            final(self).wf(),
            r == old(self).tasks.tasks()[t],
            final(self).tasks.tasks() == old(self).tasks.tasks().remove(t),
            final(self).tasks.seq == old(self).tasks.seq,
            final(self).tasks.root == old(self).tasks.root,
            *final(self) == (Kernel { tasks: final(self).tasks, ..*old(self) }),
    {
        assert(self.tasks.map.view_map().dom().contains(t));
        match self.tasks.map.remove(t) {
            Some(task) => task,
            None => {
                assert(false);
                Task::make(t, &[])
            },
        }
    }

    fn put_task(&mut self, t: usize, task: Task)
        requires
            old(self).wf(),
        ensures
            final(self).wf(),
            final(self).tasks.tasks() == old(self).tasks.tasks().insert(t, task),
            final(self).tasks.seq == old(self).tasks.seq,
            final(self).tasks.root == old(self).tasks.root,
            *final(self) == (Kernel { tasks: final(self).tasks, ..*old(self) }),
    {
        let _ = self.tasks.map.insert(t, task);
    }

    fn sys_open(&mut self, path_addr: usize, flags: usize) -> (r: Result<usize, &'static str>)
        requires
            old(self).wf(),
            cur(*old(self)) matches Some(t) ==> old(self).tasks.tasks()[t].files.wf()
                && old(self).tasks.tasks()[t].files.entries@.len() < usize::MAX,
        ensures
            final(self).wf(),
            open_post(*old(self), *final(self), path_addr, flags, r),
    {
        if path_addr == 0 {
            return Err("efault");
        }
        if !crate::kmem::check_access(path_addr, 256) {
            return Err("efault");
        }
        let acc_mode = flags & 0x3;
        let rdonly = acc_mode == 0;
        let wronly = acc_mode == 1;
        let rdwr = acc_mode == 2;
        let create = (flags & 0o100) != 0;
        let excl = (flags & 0o200) != 0;
        let nonblock = (flags & crate::sysno::O_NONBLOCK) != 0;
        let append = (flags & crate::sysno::O_APPEND) != 0;
        let cloexec = (flags & crate::sysno::O_CLOEXEC) != 0;
        if create && excl {
            let exists = chain_has(self, path_addr, path_addr, false);
            if exists {
                return Err("eexist");
            }
        }
        match self.current() {
            Some(t) => {
                let mut task = self.take_cur(t);
                let opt = FdOpt { rd: rdonly || rdwr, wr: wronly || rdwr, ap: append, nb: nonblock };
                let name: [u8; 4] = [0x61, 0x6e, 0x6f, 0x6e];
                let mut fh = FHandle::new(&mut self.store, &name, opt, false, cloexec);
                fh.cloexec = cloexec;
                let ghost f0 = task.files;
                let fd = task.add_file(FLike::File(fh));
                proof {
                    assert forall|j: usize| j < fd implies has_fd(f0.entries@, j) by {}
                }
                self.put_task(t, task);
                proof {
                    assert(self.tasks.tasks().dom() =~= old(self).tasks.tasks().dom());
                    assert(self.store.data(old(self).store.datas@.len() as usize) == self.store.datas@.last()@);
                }
                Ok(fd)
            },
            None => Ok(3 + (path_addr % 64)),
        }
    }

    fn sys_pipe(&mut self, fds_addr: usize) -> (r: Result<usize, &'static str>)
        requires
            old(self).wf(),
            cur(*old(self)) matches Some(t) ==> old(self).tasks.tasks()[t].files.wf()
                && old(self).tasks.tasks()[t].files.entries@.len() + 2 < usize::MAX,
        ensures
            final(self).wf(),
            pipe_post(*old(self), *final(self), fds_addr, r),
    {
        if fds_addr == 0 {
            return Err("efault");
        }
        if !crate::kmem::check_access(fds_addr, 8) {
            return Err("efault");
        }
        match self.current() {
            Some(t) => {
                let n = match self.tasks.find(t) {
                    Some(task) => task.fd_count(),
                    None => {
                        return Err("esrch");
                    },
                };
                if n + 2 > crate::sysno::N_PROC {
                    return Err("emfile");
                }
                let (rd, wr) = PipeNode::pair(&mut self.store);
                let mut task = self.take_cur(t);
                let ghost f0 = task.files;
                let a = task.add_file(FLike::Pipe(rd));
                let ghost f1 = task.files;
                proof {
                    assert forall|k: usize| k < a implies has_fd(f1.entries@, k) by {
                        assert(f1.view_map().dom().contains(k));
                    }
                    assert(f1.view_map().dom().contains(a));
                }
                let b = task.add_file(FLike::Pipe(wr));
                proof {
                    assert(has_fd(f1.entries@, a));
                    assert forall|k: usize| k < b && k != a implies has_fd(f0.entries@, k) by {
                        assert(f1.view_map().dom().contains(k));
                        assert(f0.view_map().dom().contains(k));
                    }
                    assert(!f1.view_map().dom().contains(b));
                    assert(!f0.view_map().dom().contains(b));
                    assert(two_lowest(old(self).tasks.tasks()[t], a, b));
                }
                self.put_task(t, task);
                proof {
                    assert(self.tasks.tasks().dom() =~= old(self).tasks.tasks().dom());
                }
                let v: u64 = (a as u64) | ((b as u64) << 32u64);
                Ok(v as usize)
            },
            None => Err("esrch"),
        }
    }

    fn sys_dup2(&mut self, old_fd: usize, new_fd: usize) -> (r: Result<usize, &'static str>)
        requires
            old(self).wf(),
            cur(*old(self)) matches Some(t) ==> old(self).tasks.tasks()[t].files_in(&old(self).store)
                && pipe_slack(&old(self).store, 2),
        ensures
            final(self).wf(),
            dup2_post(*old(self), *final(self), old_fd, new_fd, r),
    {
        if old_fd >= crate::sysno::N_PROC * 4 {
            return Err("ebadf");
        }
        if new_fd >= crate::sysno::N_PROC * 4 {
            return Err("ebadf");
        }
        if old_fd == new_fd {
            return Ok(new_fd);
        }
        let t = match self.current() {
            Some(t) => t,
            None => {
                return Ok(new_fd);
            },
        };
        let mut task = self.take_cur(t);
        let ghost f0 = task.files.view_map();
        let ghost s0 = self.store;
        let prev = task.files.remove(new_fd);
        let res = match task.files.lookup(old_fd) {
            Some(fl) => {
                let clone = fl.cloned();
                let dup = clone.dup(false);
                let _ = task.files.insert(new_fd, dup);
                proof {
                    assert(f0.contains_key(old_fd));
                    assert(same_object(&f0[old_fd], &dup));
                    assert(clone.in_store(&self.store)) by {
                        let i = choose|i: int| crate::fdtable::fd_at(old(self).tasks.tasks()[t].files.entries@, old_fd, i);
                        assert(old(self).tasks.tasks()[t].files.entries@[i].1.in_store(&s0));
                    }
                }
                let ghost pre = self.store;
                clone.release(&mut self.store);
                proof {
                    assert(task.files.view_map() =~= f0.insert(new_fd, dup));
                    match f0[old_fd] {
                        FLike::Pipe(q) => {
                            assert(released(&f0[old_fd], &pre, &self.store));
                        },
                        _ => {
                            assert(released(&f0[old_fd], &pre, &self.store));
                        },
                    }
                }
                Ok(new_fd)
            },
            None => {
                assert(!f0.contains_key(old_fd));
                Err("ebadf")
            },
        };
        let ghost mid = self.store;
        match prev {
            Some(p) => {
                proof {
                    assert(f0.contains_key(new_fd));
                    let i = choose|i: int| crate::fdtable::fd_at(old(self).tasks.tasks()[t].files.entries@, new_fd, i);
                    assert(old(self).tasks.tasks()[t].files.entries@[i].1.in_store(&s0));
                }
                p.release(&mut self.store);
            },
            None => {},
        }
        self.put_task(t, task);
        proof {
            assert(self.tasks.tasks().dom() =~= old(self).tasks.tasks().dom());
        }
        res
    }

    fn sys_fork(&mut self) -> (r: Result<usize, &'static str>)
        requires
            old(self).wf(),
            fork_ok(*old(self)),
        ensures
            final(self).wf(),
            fork_post(*old(self), *final(self), r),
    {
        let free = self.pool.free_count();
        let active = self.tasks.count();
        let cost = (if free <= 256 { free } else { 256 }) + active * 2;
        let new_pid = self.tasks.seq;
        self.tasks.seq = self.tasks.seq.wrapping_add(1);
        let used = crate::consts::N_FRAMES - free;
        let ratio = (used * 100) / crate::consts::N_FRAMES;
        if ratio > 90 {
            return Err("enomem");
        }
        if free < cost / PAGE_SIZE {
            return Err("enomem");
        }
        Ok(new_pid)
    }

    fn sys_setsid(&mut self) -> (r: Result<usize, &'static str>)
        requires
            old(self).wf(),
        ensures
            final(self).wf(),
            setsid_post(*old(self), *final(self), r),
    {
        match self.current() {
            Some(c) => {
                let (tid, pg) = match self.tasks.find(c) {
                    Some(t) => (t.id(), t.pgid),
                    None => {
                        return Err("esrch");
                    },
                };
                if pg as usize == tid {
                    return Err("eperm");
                }
                let mut task = self.take_cur(c);
                task.pgid = tid as i32;
                self.put_task(c, task);
                proof {
                    assert(self.tasks.tasks().dom() =~= old(self).tasks.tasks().dom());
                }
                Ok(tid)
            },
            None => Err("esrch"),
        }
    }

    fn sys_setpgid(&mut self, pid: usize, pgid: usize) -> (r: Result<usize, &'static str>)
        requires
            old(self).wf(),
        ensures
            final(self).wf(),
            setpgid_post(*old(self), *final(self), pid, pgid, r),
    {
        let caller_pid = match self.current() {
            Some(c) => match self.tasks.find(c) {
                Some(t) => t.id(),
                None => 1,
            },
            None => 1,
        };
        let target_pid = if pid == 0 { caller_pid } else { pid };
        let new_pgid = if pgid == 0 { target_pid } else { pgid };
        if target_pid != caller_pid {
            match self.tasks.find(target_pid) {
                Some(t) => {
                    let is_child = match t.parent {
                        Some(p) => p == caller_pid,
                        None => false,
                    };
                    if !is_child {
                        return Err("esrch");
                    }
                },
                None => {
                    return Err("esrch");
                },
            }
        }
        if self.tasks.map.contains_key(target_pid) {
            assert(old(self).tasks.tasks().dom().contains(target_pid));
            let mut task = self.take_cur(target_pid);
            task.pgid = new_pgid as i32;
            self.put_task(target_pid, task);
            proof {
                assert(self.tasks.tasks().dom() =~= old(self).tasks.tasks().dom());
            }
        } else {
            assert(!old(self).tasks.tasks().dom().contains(target_pid));
        }
        Ok(0)
    }

    fn sys_sigprocmask(&mut self, how: usize, set_addr: usize, oldset_addr: usize) -> (r: Result<usize, &'static str>)
        requires
            old(self).wf(),
        ensures
            final(self).wf(),
            sigprocmask_post(*old(self), *final(self), how, set_addr, oldset_addr, r),
    {
        if set_addr != 0 && !crate::kmem::check_access(set_addr, 8) {
            return Err("efault");
        }
        if oldset_addr != 0 && !crate::kmem::check_access(oldset_addr, 8) {
            return Err("efault");
        }
        let unmaskable: u64 = (1u64 << 9u64) | (1u64 << 19u64);
        assert(unmaskable == 0x80200) by (bit_vector)
            requires
                unmaskable == (1u64 << 9u64) | (1u64 << 19u64);
        match self.current() {
            Some(c) => {
                if set_addr != 0 {
                    if how > 2 {
                        return Err("einval");
                    }
                    let new_set: u64 = set_addr as u64;
                    let mut task = self.take_cur(c);
                    let m = task.sig_mask;
                    if how == 0 {
                        task.sig_mask = (m | new_set) & !unmaskable;
                    } else if how == 1 {
                        task.sig_mask = m & !new_set;
                    } else {
                        task.sig_mask = new_set & !unmaskable;
                    }
                    self.put_task(c, task);
                    proof {
                        assert(self.tasks.tasks().dom() =~= old(self).tasks.tasks().dom());
                    }
                }
                Ok(0)
            },
            None => Ok(0),
        }
    }
}


proof fn lemma_above_one(s: Seq<usize>)
    requires
        s.no_duplicates(),
    ensures
        above_one(s).no_duplicates(),
        forall|x: usize| above_one(s).contains(x) ==> s.contains(x) && x > 1,
    decreases s.len(),
{
    if s.len() > 0 {
        let d = s.drop_last();
        assert(d.no_duplicates()) by {
            assert forall|a: int, b: int| 0 <= a < d.len() && 0 <= b < d.len() && a != b implies d[a] != d[b] by {
                assert(s[a] != s[b]);
            }
        }
        lemma_above_one(d);
        let r = above_one(d);
        assert forall|x: usize| above_one(s).contains(x) implies s.contains(x) && x > 1 by {
            if r.contains(x) {
                assert(d.contains(x));
                let i = choose|i: int| 0 <= i < d.len() && d[i] == x;
                assert(s[i] == x);
            } else {
                assert(s[s.len() - 1] == x);
            }
        }
        if s.last() > 1 {
            assert(!r.contains(s.last())) by {
                if r.contains(s.last()) {
                    assert(d.contains(s.last()));
                    let i = choose|i: int| 0 <= i < d.len() && d[i] == s.last();
                    assert(s[i] == s[s.len() - 1]);
                }
            }
            let t = r.push(s.last());
            assert forall|a: int, b: int| 0 <= a < t.len() && 0 <= b < t.len() && a != b implies t[a] != t[b] by {
                if a == t.len() - 1 && b < r.len() {
                    assert(r.contains(r[b]));
                } else if b == t.len() - 1 && a < r.len() {
                    assert(r.contains(r[a]));
                }
            }
        }
    }
}

impl Kernel {
    fn sys_exit(&mut self, status: usize) -> (r: Result<usize, &'static str>)
        requires
            old(self).wf(),
            exit_ok(*old(self)),
        ensures
            final(self).wf(),
            exit_call_post(*old(self), *final(self), status, r),
    {
        let t = match self.current() {
            Some(t) => t,
            None => {
                return Ok(0);
            },
        };
        let ghost m0 = self.tasks.tasks();
        let (parent, kids, my_id) = match self.tasks.find(t) {
            Some(task) => (task.parent, crate::kobj::copy_ids_pub(&task.subtasks), task.id()),
            None => {
                return Ok(0);
            },
        };
        self.tasks.exit_task(&mut self.store, t, status);
        let ghost m1 = self.tasks.tasks();
        match parent {
            Some(p) => {
                let _ = self.tasks.signal_task(p, 17, my_id as isize);
            },
            None => {},
        }
        let ghost m2 = self.tasks.tasks();
        let ghost s1 = self.store;
        proof {
            assert(signal_step(m1, m2, m0[t].parent, 17, m0[t].info.id as isize));
        }
        let mut i: usize = 0;
        while i < kids.len()
            invariant
                self.tasks.wf(),
                self.tasks.seq == old(self).tasks.seq,
                self.tasks.root == old(self).tasks.root,
                i <= kids@.len(),
                reparented(m2, self.tasks.tasks(), kids@.take(i as int)),
                *self == (Kernel { tasks: self.tasks, store: self.store, ..*old(self) }),
                self.store == s1,
            decreases kids@.len() - i,
        {
            let c = kids[i];
            let ghost cur_m = self.tasks.tasks();
            proof {
                assert(kids@.take(i as int + 1) =~= kids@.take(i as int).push(c));
            }
            if self.tasks.map.contains_key(1) {
                assert(cur_m.dom().contains(1usize));
                if self.tasks.map.contains_key(c) {
                    assert(cur_m.dom().contains(c));
                    let mut ct = match self.tasks.map.remove(c) {
                        Some(x) => x,
                        None => {
                            assert(false);
                            return Ok(0);
                        },
                    };
                    ct.parent = Some(1);
                    let _ = self.tasks.map.insert(c, ct);
                }
                let ghost mid = self.tasks.tasks();
                assert(mid.dom().contains(1usize));
                let mut it = match self.tasks.map.remove(1) {
                    Some(x) => x,
                    None => {
                        assert(false);
                        return Ok(0);
                    },
                };
                it.subtasks.push(c);
                let _ = self.tasks.map.insert(1, it);
                proof {
                    let now = self.tasks.tasks();
                    assert(m2.contains_key(1usize));
                    assert(now.dom() =~= m2.dom());
                    assert forall|k: usize| #[trigger] now.contains_key(k) implies {
                        &&& now[k].parent == if kids@.take(i as int + 1).contains(k) { Some(1usize) } else { m2[k].parent }
                        &&& now[k].subtasks@ == if k == 1 { m2[k].subtasks@ + kids@.take(i as int + 1) } else { m2[k].subtasks@ }
                        &&& now[k] == (Task { parent: now[k].parent, subtasks: now[k].subtasks, ..m2[k] })
                    } by {
                        let a = kids@.take(i as int);
                        let b = kids@.take(i as int + 1);
                        if b.contains(k) && k != c {
                            let w = choose|w: int| 0 <= w < b.len() && b[w] == k;
                            assert(a[w] == k);
                        }
                        if a.contains(k) {
                            let w = choose|w: int| 0 <= w < a.len() && a[w] == k;
                            assert(b[w] == k);
                        }
                        if k == c {
                            assert(b[i as int] == k);
                        }
                        if k == 1 {
                            assert(m2[k].subtasks@ + b =~= (m2[k].subtasks@ + a).push(c));
                        }
                    }
                }
            } else {
                proof {
                    assert(!cur_m.dom().contains(1usize));
                    assert(!m2.contains_key(1usize));
                }
            }
            i = i + 1;
        }
        proof {
            assert(kids@.take(kids@.len() as int) =~= kids@);
            assert(exit_post(m0, m1, t, status));
            assert(signal_step(m1, m2, m0[t].parent, 17, m0[t].info.id as isize));
            assert(kids@ == m0[t].subtasks@);
            assert(reparented(m2, self.tasks.tasks(), m0[t].subtasks@));
            assert(released_all(m0[t].files.entries@, &old(self).store, &self.store));
            assert(*self == (Kernel { tasks: self.tasks, store: self.store, ..*old(self) }));
            assert(cur(*old(self)) == Some(t));
        }
        Ok(0)
    }

    fn sys_kill(&mut self, a0: usize, sig: usize) -> (r: Result<usize, &'static str>)
        requires
            old(self).wf(),
            a0 as isize != isize::MIN,
        ensures
            final(self).wf(),
            kill_post(*old(self), *final(self), a0, sig, r),
    {
        let pid = a0 as isize;
        if sig > 64 {
            return Err("einval");
        }
        if sig == 9 || sig == 19 {
            let target_pid: usize = if pid < 0 {
                let neg: isize = -pid;
                neg as usize
            } else {
                pid as usize
            };
            if target_pid <= 1 {
                return Err("eperm");
            }
        }
        let ghost m = self.tasks.tasks();
        let ghost es = self.tasks.map.entries@;
        if pid == 0 {
            let c = match self.current() {
                Some(c) => c,
                None => {
                    return Ok(0);
                },
            };
            let pg = match self.tasks.find(c) {
                Some(t) => t.pgid,
                None => {
                    return Ok(0);
                },
            };
            let g = self.tasks.pgid_group(pg);
            proof {
                assert((|t: Task| t.pgid == pg) =~= (|t: Task| t.pgid == m[c].pgid));
                crate::task::lemma_ids_where_members(es, |t: Task| t.pgid == pg);
                assert forall|q: int| 0 <= q < g@.len() implies m.contains_key(#[trigger] g@[q]) by {
                    crate::task::lemma_ids_where_in(es, |t: Task| t.pgid == pg, q);
                }
            }
            let n = self.tasks.signal_all(&g, sig as i32, -1);
            return Ok(n);
        }
        if pid == -1 {
            let act = self.tasks.active_tasks();
            let mut g: Vec<usize> = Vec::new();
            let mut i: usize = 0;
            while i < act.len()
                invariant
                    i <= act@.len(),
                    g@ == above_one(act@.take(i as int)),
                decreases act@.len() - i,
            {
                proof {
                    assert(act@.take(i as int + 1).drop_last() =~= act@.take(i as int));
                }
                if act[i] > 1 {
                    g.push(act[i]);
                }
                i = i + 1;
            }
            proof {
                assert(act@.take(act@.len() as int) =~= act@);
                crate::task::lemma_ids_where_members(es, |t: Task| t.info.status is None);
                lemma_above_one(act@);
                assert forall|q: int| 0 <= q < g@.len() implies m.contains_key(#[trigger] g@[q]) by {
                    assert(g@.contains(g@[q]));
                    assert(act@.contains(g@[q]));
                    let w = choose|w: int| 0 <= w < act@.len() && act@[w] == g@[q];
                    crate::task::lemma_ids_where_in(es, |t: Task| t.info.status is None, w);
                }
            }
            let sent = self.tasks.signal_all(&g, sig as i32, -1);
            if sent == 0 {
                return Err("esrch");
            }
            return Ok(sent);
        }
        if pid > 0 {
            let p = pid as usize;
            let done = match self.tasks.find(p) {
                Some(t) => t.done(),
                None => {
                    return Err("esrch");
                },
            };
            if done && sig != 0 {
                return Err("esrch");
            }
            let _ = self.tasks.signal_task(p, sig as i32, -1);
            proof {
                assert forall|k: usize| seq![p].contains(k) <==> k == p by {
                    if k == p {
                        assert(seq![p][0] == k);
                    }
                }
            }
            return Ok(0);
        }
        let neg: isize = -pid;
        let pg = neg as i32;
        let g = self.tasks.pgid_group(pg);
        proof {
            assert((|t: Task| t.pgid == pg) =~= (|t: Task| t.pgid == (-pid) as i32));
            crate::task::lemma_ids_where_members(es, |t: Task| t.pgid == pg);
            assert forall|q: int| 0 <= q < g@.len() implies m.contains_key(#[trigger] g@[q]) by {
                crate::task::lemma_ids_where_in(es, |t: Task| t.pgid == pg, q);
            }
        }
        let n = self.tasks.signal_all(&g, sig as i32, -1);
        if n == 0 {
            return Err("esrch");
        }
        Ok(n)
    }
}


/// What a system call may be asked without the kernel faulting on its own
/// arithmetic, and the descriptor tables it touches are in order.
pub open spec fn syscall_ok(k: Kernel, nr: usize, a0: usize, a1: usize, a2: usize, a3: usize, a4: usize, a5: usize) -> bool {
    let files_ok = |extra: int| cur(k) matches Some(t) ==> k.tasks.tasks()[t].files.wf()
        && k.tasks.tasks()[t].files.entries@.len() + extra < usize::MAX;
    &&& nr == crate::sysno::SYS_OPEN ==> files_ok(0)
    &&& nr == crate::sysno::SYS_PIPE ==> files_ok(2)
    &&& nr == crate::sysno::SYS_DUP ==> files_ok(1024)
    &&& nr == crate::sysno::SYS_MMAP ==> mmap_ok(a0, a1, a3, a4, k.clocks.clk)
    &&& nr == crate::sysno::SYS_MUNMAP ==> munmap_ok(a0, a1)
    &&& nr == crate::sysno::SYS_DUP2 ==> (cur(k) matches Some(t) ==> k.tasks.tasks()[t].files_in(&k.store)
        && pipe_slack(&k.store, 2))
    &&& nr == crate::sysno::SYS_FORK ==> fork_ok(k)
    &&& nr == crate::sysno::SYS_EXIT ==> exit_ok(k)
    &&& nr == crate::sysno::SYS_WAIT4 || nr == crate::sysno::SYS_KILL ==> a0 as isize != isize::MIN
    &&& nr == crate::sysno::SYS_FCNTL ==> fcntl_ok(a0, a1, a2, k.clocks.clk)
    &&& nr == crate::sysno::SYS_EPOLL_WAIT ==> epoll_wait_ok(a1, a2, a3, k.clocks.clk)
    &&& nr == crate::sysno::SYS_FUTEX ==> futex_ok(a1, a2, a5)
}

/// What system call `nr` answers and leaves, call by call.
pub open spec fn syscall_post(k0: Kernel, k1: Kernel, nr: usize, a0: usize, a1: usize, a2: usize, a3: usize, a4: usize, a5: usize, r: Result<usize, &'static str>) -> bool {
    if nr == crate::sysno::SYS_READ {
        r == read_result(k0, a0, a1, a2) && k1 == k0
    } else if nr == crate::sysno::SYS_WRITE {
        write_post(k0, k1, a0, a1, a2, r)
    } else if nr == crate::sysno::SYS_OPEN {
        open_post(k0, k1, a0, a1, r)
    } else if nr == crate::sysno::SYS_CLOSE {
        close_post(k0, k1, a0, r)
    } else if nr == crate::sysno::SYS_STAT || nr == crate::sysno::SYS_FSTAT {
        r == stat_result(nr, a0, a1) && k1 == k0
    } else if nr == crate::sysno::SYS_MMAP {
        r == mmap_result(k0, a0, a1, a3, a4, a5) && k1 == k0
    } else if nr == crate::sysno::SYS_MUNMAP {
        r == munmap_result(a0) && k1 == k0
    } else if nr == crate::sysno::SYS_BRK {
        brk_post(k0, k1, a0, r)
    } else if nr == crate::sysno::SYS_IOCTL {
        r == ioctl_result(a1, a2) && k1 == k0
    } else if nr == crate::sysno::SYS_PIPE {
        pipe_post(k0, k1, a0, r)
    } else if nr == crate::sysno::SYS_DUP {
        dup_post(k0, a0, r) && k1 == k0
    } else if nr == crate::sysno::SYS_DUP2 {
        dup2_post(k0, k1, a0, a1, r)
    } else if nr == crate::sysno::SYS_FORK {
        fork_post(k0, k1, r)
    } else if nr == crate::sysno::SYS_EXEC {
        r == exec_result(a0, a1, a2) && k1 == k0
    } else if nr == crate::sysno::SYS_EXIT {
        exit_call_post(k0, k1, a0, r)
    } else if nr == crate::sysno::SYS_WAIT4 {
        r == wait4_result(k0, a0, a1, a2, a3) && k1 == k0
    } else if nr == crate::sysno::SYS_KILL {
        kill_post(k0, k1, a0, a1, r)
    } else if nr == crate::sysno::SYS_FCNTL {
        r == fcntl_result(k0, a0, a1, a2) && k1 == k0
    } else if nr == crate::sysno::SYS_GETPID {
        r == getpid_result(k0) && k1 == k0
    } else if nr == crate::sysno::SYS_GETPPID {
        r == getppid_result(k0) && k1 == k0
    } else if nr == crate::sysno::SYS_SETPGID {
        setpgid_post(k0, k1, a0, a1, r)
    } else if nr == crate::sysno::SYS_GETPGID {
        r == getpgid_result(k0, a0) && k1 == k0
    } else if nr == crate::sysno::SYS_SETSID {
        setsid_post(k0, k1, r)
    } else if nr == crate::sysno::SYS_EPOLL_CREATE {
        r == epoll_create_result(a0) && k1 == k0
    } else if nr == crate::sysno::SYS_EPOLL_CTL {
        r == epoll_ctl_result(a1, a3) && k1 == k0
    } else if nr == crate::sysno::SYS_EPOLL_WAIT {
        r == epoll_wait_result(a1, a2) && k1 == k0
    } else if nr == crate::sysno::SYS_CLOCK_GETTIME {
        r == clock_result(a0, a1) && k1 == k0
    } else if nr == crate::sysno::SYS_SIGACTION {
        r == sigaction_result(a0, a1, a2) && k1 == k0
    } else if nr == crate::sysno::SYS_SIGPROCMASK {
        sigprocmask_post(k0, k1, a0, a1, a2, r)
    } else if nr == crate::sysno::SYS_FUTEX {
        r == futex_result(k0, a0, a1, a2, a3, a4, a5) && k1 == k0
    } else {
        r == Err::<usize, &'static str>("enosys") && k1 == k0
    }
}

impl Kernel {
    /// Runs system call `nr` with arguments `a0`..`a5` for the task on the
    /// boot CPU.
    /// Whether system call `nr` with these arguments is one the kernel can
    /// carry out without faulting on its own arithmetic, with the
    /// descriptor tables it touches in order.
    pub fn syscall_admissible(&self, nr: usize, a0: usize, a1: usize, a2: usize, a3: usize, a4: usize, a5: usize) -> (r: bool)
        requires
            self.wf(),
        ensures
            r == syscall_ok(*self, nr, a0, a1, a2, a3, a4, a5),
    {
        let cur_t: Option<&Task> = match self.current() {
            Some(id) => self.tasks.find(id),
            None => None,
        };
        let now = self.clocks.clk;
        let files_len_ok = |extra: usize| -> (b: bool)
            ensures
                b == (cur(*self) matches Some(t) ==> self.tasks.tasks()[t].files.wf()
                    && self.tasks.tasks()[t].files.entries@.len() + extra < usize::MAX),
        {
            match cur_t {
                Some(t) => t.files.in_order() && t.files.entries.len() < usize::MAX - extra,
                None => true,
            }
        };
        let ok_open = nr != crate::sysno::SYS_OPEN || files_len_ok(0);
        let ok_pipe = nr != crate::sysno::SYS_PIPE || files_len_ok(2);
        let ok_dup = nr != crate::sysno::SYS_DUP || files_len_ok(1024);
        let ok_mmap = if nr == crate::sysno::SYS_MMAP && a1 != 0 {
            if a1 > usize::MAX - 0x1000 {
                false
            } else if a0 != 0 && a3 & 0x10 != 0 {
                true
            } else {
                let p = (a1 + 0xfff) & !0xfffusize;
                match now.checked_mul(4096) {
                    Some(x) => match a4.checked_mul(4096) {
                        Some(y) => x <= usize::MAX - y && p < KERN_BASE && KERN_BASE - p > 0x7000_0000,
                        None => false,
                    },
                    None => false,
                }
            }
        } else {
            true
        };
        let ok_munmap = if nr == crate::sysno::SYS_MUNMAP && a0 % 4096 == 0 {
            if a1 > usize::MAX - 0x1000 {
                false
            } else {
                let p = (a1 + 0xfff) & !0xfffusize;
                p < 4096 || a0 <= usize::MAX - (p - 4096)
            }
        } else {
            true
        };
        let ok_dup2 = if nr == crate::sysno::SYS_DUP2 {
            match cur_t {
                Some(t) => t.files_in_check(&self.store) && crate::task::pipe_slack_check(&self.store, 2),
                None => true,
            }
        } else {
            true
        };
        let ok_fork = if nr == crate::sysno::SYS_FORK {
            self.pool.free_count() <= crate::consts::N_FRAMES && self.tasks.map.entries.len() <= (usize::MAX - 256) / 2
        } else {
            true
        };
        let ok_exit = if nr == crate::sysno::SYS_EXIT {
            match cur_t {
                Some(t) => t.files_in_check(&self.store) && crate::task::pipe_slack_check(&self.store, t.files.entries.len()),
                None => true,
            }
        } else {
            true
        };
        let ok_wait = if nr == crate::sysno::SYS_WAIT4 || nr == crate::sysno::SYS_KILL {
            a0 as isize != isize::MIN
        } else {
            true
        };
        let ok_fcntl = if nr == crate::sysno::SYS_FCNTL && a0 < 1024 {
            let base = if a0 > a2 { a0 } else { a2 };
            (a1 != crate::sysno::F_DUPFD || base <= usize::MAX - 3) && (a1 != crate::sysno::F_DUPFD_CLOEXEC || base
                <= usize::MAX - 1)
        } else {
            true
        };
        let ok_epoll = if nr == crate::sysno::SYS_EPOLL_WAIT && a1 != 0 && a2 != 0 {
            if a2 > usize::MAX / 16 {
                false
            } else {
                let bytes = a2 * 16;
                let in_user = bytes == 0 || (bytes <= KERN_BASE && a1 <= KERN_BASE - bytes);
                let t = a3 as i32;
                if in_user && t > 0 {
                    let tu = t as usize;
                    if tu > usize::MAX / 100 {
                        false
                    } else {
                        now <= usize::MAX - tu * 100 / 1000
                    }
                } else {
                    true
                }
            }
        } else {
            true
        };
        let ok_futex = if nr == crate::sysno::SYS_FUTEX && a1 & 0xf == 3 {
            a2 <= usize::MAX - a5
        } else {
            true
        };
        ok_open && ok_pipe && ok_dup && ok_mmap && ok_munmap && ok_dup2 && ok_fork && ok_exit && ok_wait && ok_fcntl
            && ok_epoll && ok_futex
    }

    pub fn dispatch_syscall(&mut self, nr: usize, a0: usize, a1: usize, a2: usize, a3: usize, a4: usize, a5: usize) -> (r: Result<usize, &'static str>)
        requires
            old(self).wf(),
            syscall_ok(*old(self), nr, a0, a1, a2, a3, a4, a5),
        ensures
            final(self).wf(),
            syscall_post(*old(self), *final(self), nr, a0, a1, a2, a3, a4, a5, r),
    {
        if nr == crate::sysno::SYS_READ {
            self.sys_read(a0, a1, a2)
        } else if nr == crate::sysno::SYS_WRITE {
            self.sys_write(a0, a1, a2)
        } else if nr == crate::sysno::SYS_OPEN {
            self.sys_open(a0, a1)
        } else if nr == crate::sysno::SYS_CLOSE {
            self.sys_close(a0)
        } else if nr == crate::sysno::SYS_STAT || nr == crate::sysno::SYS_FSTAT {
            if a1 == 0 {
                return Err("efault");
            }
            if !crate::kmem::check_access(a1, 144) {
                return Err("efault");
            }
            if nr == crate::sysno::SYS_STAT && !crate::kmem::check_access(a0, 256) {
                return Err("efault");
            }
            Ok(0)
        } else if nr == crate::sysno::SYS_MMAP {
            self.sys_mmap(a0, a1, a3, a4, a5)
        } else if nr == crate::sysno::SYS_MUNMAP {
            if a0 % PAGE_SIZE != 0 {
                return Err("einval");
            }
            Ok(0)
        } else if nr == crate::sysno::SYS_BRK {
            self.sys_brk(a0)
        } else if nr == crate::sysno::SYS_IOCTL {
            self.sys_ioctl(a1, a2)
        } else if nr == crate::sysno::SYS_PIPE {
            self.sys_pipe(a0)
        } else if nr == crate::sysno::SYS_DUP {
            self.sys_dup(a0)
        } else if nr == crate::sysno::SYS_DUP2 {
            self.sys_dup2(a0, a1)
        } else if nr == crate::sysno::SYS_FORK {
            self.sys_fork()
        } else if nr == crate::sysno::SYS_EXEC {
            if a0 == 0 {
                return Err("efault");
            }
            if !crate::kmem::check_access(a0, 256) {
                return Err("efault");
            }
            if a1 != 0 && !crate::kmem::check_access(a1, 8 * 64) {
                return Err("efault");
            }
            if a2 != 0 && !crate::kmem::check_access(a2, 8 * 64) {
                return Err("efault");
            }
            Ok(0)
        } else if nr == crate::sysno::SYS_EXIT {
            self.sys_exit(a0)
        } else if nr == crate::sysno::SYS_WAIT4 {
            self.sys_wait4(a0, a1, a2, a3)
        } else if nr == crate::sysno::SYS_KILL {
            self.sys_kill(a0, a1)
        } else if nr == crate::sysno::SYS_FCNTL {
            self.sys_fcntl(a0, a1, a2)
        } else if nr == crate::sysno::SYS_GETPID {
            self.sys_getpid()
        } else if nr == crate::sysno::SYS_GETPPID {
            self.sys_getppid()
        } else if nr == crate::sysno::SYS_SETPGID {
            self.sys_setpgid(a0, a1)
        } else if nr == crate::sysno::SYS_GETPGID {
            self.sys_getpgid(a0)
        } else if nr == crate::sysno::SYS_SETSID {
            self.sys_setsid()
        } else if nr == crate::sysno::SYS_EPOLL_CREATE {
            if a0 == 0 {
                return Err("einval");
            }
            match a0.checked_mul(EP_EVENT_BYTES) {
                Some(_) => Ok(3 + (a0 % 61)),
                None => Err("enomem"),
            }
        } else if nr == crate::sysno::SYS_EPOLL_CTL {
            let op = a1 as i32;
            if a3 != 0 && !crate::kmem::check_access(a3, 12) {
                return Err("efault");
            }
            if op == 1 || op == 3 {
                if a3 == 0 {
                    return Err("efault");
                }
                Ok(0)
            } else if op == 2 {
                Ok(0)
            } else {
                Err("einval")
            }
        } else if nr == crate::sysno::SYS_EPOLL_WAIT {
            if a1 == 0 || a2 == 0 {
                return Err("einval");
            }
            let total_buf = a2 * EP_EVENT_BYTES;
            if total_buf / EP_EVENT_BYTES != a2 {
                return Err("einval");
            }
            if !crate::kmem::check_access(a1, total_buf) {
                return Err("efault");
            }
            let timeout = a3 as i32;
            if timeout == 0 {
                return Ok(0);
            }
            if timeout > 0 {
                let ticks_to_wait = (timeout as usize) * crate::sysno::TIMER_TICK_HZ / 1000;
                let deadline = self.clocks.clk + ticks_to_wait;
                let elapsed = self.clocks.clk;
                if elapsed >= deadline {
                    return Ok(0);
                }
            }
            Ok(0)
        } else if nr == crate::sysno::SYS_CLOCK_GETTIME {
            if a1 == 0 {
                return Err("efault");
            }
            if !crate::kmem::check_access(a1, 16) {
                return Err("efault");
            }
            if a0 == 0 || a0 == 1 || a0 == 4 {
                Ok(0)
            } else {
                Err("einval")
            }
        } else if nr == crate::sysno::SYS_SIGACTION {
            if a0 == 0 || a0 >= 64 {
                return Err("einval");
            }
            if a0 != 9 && a0 != 19 {
                return Err("einval");
            }
            if a1 != 0 && !crate::kmem::check_access(a1, 32) {
                return Err("efault");
            }
            if a2 != 0 && !crate::kmem::check_access(a2, 32) {
                return Err("efault");
            }
            Ok(0)
        } else if nr == crate::sysno::SYS_SIGPROCMASK {
            self.sys_sigprocmask(a0, a1, a2)
        } else if nr == crate::sysno::SYS_FUTEX {
            self.sys_futex(a0, a1, a2, a3, a4, a5)
        } else {
            Err("enosys")
        }
    }
}

/// Asked by a task with a parent, `getppid` answers the parent's id, and
/// changes nothing.
pub proof fn law_getppid_gives_parent(
    k0: Kernel,
    k1: Kernel,
    a0: usize,
    a1: usize,
    a2: usize,
    a3: usize,
    a4: usize,
    a5: usize,
    r: Result<usize, &'static str>,
    t: usize,
    p: usize,
)
    requires
        syscall_post(k0, k1, crate::sysno::SYS_GETPPID, a0, a1, a2, a3, a4, a5, r),
        cur(k0) == Some(t),
        k0.tasks.tasks()[t].parent == Some(p),
    ensures
        r == Ok::<usize, &'static str>(p),
        k1 == k0,
{
}

/// Asked with no current task, or by one without a parent, `getppid`
/// answers 0.
pub proof fn law_getppid_orphan(
    k0: Kernel,
    k1: Kernel,
    a0: usize,
    a1: usize,
    a2: usize,
    a3: usize,
    a4: usize,
    a5: usize,
    r: Result<usize, &'static str>,
)
    requires
        syscall_post(k0, k1, crate::sysno::SYS_GETPPID, a0, a1, a2, a3, a4, a5, r),
        cur(k0) matches Some(t) ==> k0.tasks.tasks()[t].parent is None,
    ensures
        r == Ok::<usize, &'static str>(0),
        k1 == k0,
{
}

} // verus!
