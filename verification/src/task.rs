//! Tasks: identity, family links, descriptors, signals, IPC contexts and
//! the saved thread context. Tasks refer to each other by id.
use vstd::prelude::*;
use crate::context::Context;
use crate::fdtable::{FdTable, IdMap, has_fd, fd_at, fds_increasing};
use crate::file::{EpInst, FHandle, FLike, FdOpt, FdState, FileStore, released, same_object};
use crate::procinit::{ProcInit, initial_sp, stack_fits};
use crate::consts::{USR_STK_OFF, USR_STK_SZ};

verus! {

broadcast use vstd::std_specs::btree::group_btree_axioms, vstd::laws_cmp::group_laws_cmp;

pub const EV_PROC_QUIT: u32 = 0x400;
pub const EV_CHILD_QUIT: u32 = 0x800;
pub const EV_RECV_SIG: u32 = 0x1000;

pub struct TaskInfo {
    pub id: usize,
    pub tag: Vec<u8>,
    pub status: Option<i32>,
    pub fds: Vec<Vec<u8>>,
}

pub struct Pid(pub usize);

impl Pid {
    pub const INIT: usize = 1;

    pub fn new() -> (r: Self)
        ensures
            r.0 == 0,
    {
        Pid(0)
    }

    pub fn get(&self) -> (r: usize)
        ensures
            r == self.0,
    {
        self.0
    }

    pub fn is_init(&self) -> (r: bool)
        ensures
            r == (self.0 == 1),
    {
        self.0 == Self::INIT
    }
}

#[derive(Clone, Copy)]
pub struct ThdCtx {
    pub uctx: Context,
    pub clear_tid: usize,
    pub smask: u64,
}

impl Default for ThdCtx {
    fn default() -> (r: Self)
        ensures
            r.uctx.r@ == Seq::new(16, |i: int| 0u64),
            r.uctx.ip == 0,
            r.uctx.flags == 0,
            r.clear_tid == 0,
            r.smask == 0,
    {
        ThdCtx { uctx: Context::new(), clear_tid: 0, smask: 0 }
    }
}

/// A set of event bits that waiters look at.
pub struct EvBus {
    pub ev: u32,
}

impl EvBus {
    pub fn make() -> (r: Self)
        ensures
            r.ev == 0,
    {
        EvBus { ev: 0 }
    }

    pub fn set(&mut self, s: u32)
        ensures
            final(self).ev == old(self).ev | s,
    {
        let e = self.ev;
        self.change(0, s);
        assert(e & !0u32 | s == e | s) by (bit_vector);
    }

    pub fn clear(&mut self, s: u32)
        ensures
            final(self).ev == old(self).ev & !s,
    {
        let e = self.ev;
        self.change(s, 0);
        assert(e & !s | 0 == e & !s) by (bit_vector);
    }

    /// Clears the bits of `rst`, then sets those of `s`.
    pub fn change(&mut self, rst: u32, s: u32)
        ensures
            final(self).ev == (old(self).ev & !rst) | s,
    {
        self.ev = (self.ev & !rst) | s;
    }
}

/// The bus's events once any of `mask` is set; `None` while none is, and
/// the waiter should yield and look again.
pub fn wait_ev(bus: &EvBus, mask: u32) -> (r: Option<u32>)
    ensures
        r == if bus.ev & mask != 0 { Some(bus.ev) } else { None::<u32> },
{
    if (bus.ev & mask) != 0 {
        Some(bus.ev)
    } else {
        None
    }
}

/// Everything from 0 up to `c` is in `dom`, so `dom` has at least `c`
/// members.
proof fn lemma_prefix_in(dom: Set<usize>, c: nat)
    requires
        dom.finite(),
        c <= usize::MAX + 1,
        forall|k: usize| k < c ==> dom.contains(k),
    ensures
        c <= dom.len(),
    decreases c,
{
    if c > 0 {
        let last = (c - 1) as usize;
        assert(dom.contains(last));
        lemma_prefix_in(dom.remove(last), (c - 1) as nat);
    }
}

/// The lowest key not in `m`.
fn lowest_free<V>(m: &std::collections::BTreeMap<usize, V>) -> (r: usize)
    requires
        m@.len() < usize::MAX,
    ensures
        !m@.contains_key(r),
        forall|k: usize| k < r ==> m@.contains_key(k),
{
    let mut id: usize = 0;
    while m.contains_key(&id)
        invariant
            m@.len() < usize::MAX,
            forall|k: usize| k < id ==> m@.contains_key(k),
        decreases m@.len() - id,
    {
        proof {
            lemma_prefix_in(m@.dom(), (id + 1) as nat);
        }
        id = id + 1;
    }
    id
}

/// A task's semaphore arrays by id, and its undo adjustments by array and
/// semaphore number.
pub struct SemCtx {
    pub arrays: std::collections::BTreeMap<usize, usize>,
    pub undos: Vec<(usize, u16, i16)>,
}

/// The undo adjustment recorded for `(id, num)`, 0 when there is none.
pub open spec fn undo_of(u: Seq<(usize, u16, i16)>, id: usize, num: u16) -> i16
    decreases u.len(),
{
    if u.len() == 0 {
        0
    } else if u.last().0 == id && u.last().1 == num {
        u.last().2
    } else {
        undo_of(u.drop_last(), id, num)
    }
}

impl SemCtx {
    pub fn new() -> (r: Self)
        ensures
            r.arrays@ == Map::<usize, usize>::empty(),
            r.undos@.len() == 0,
    {
        SemCtx { arrays: std::collections::BTreeMap::new(), undos: Vec::new() }
    }

    /// Files array `arr` under the lowest free id.
    pub fn add(&mut self, arr: usize) -> (id: usize)
        requires
            old(self).arrays@.len() < usize::MAX,
        ensures
            !old(self).arrays@.contains_key(id),
            forall|k: usize| k < id ==> old(self).arrays@.contains_key(k),
            final(self).arrays@ == old(self).arrays@.insert(id, arr),
            final(self).undos@ == old(self).undos@,
    {
        let id = lowest_free(&self.arrays);
        self.arrays.insert(id, arr);
        id
    }

    pub fn remove(&mut self, id: usize)
        ensures
            final(self).arrays@ == old(self).arrays@.remove(id),
            final(self).undos@ == old(self).undos@,
    {
        self.arrays.remove(&id);
    }

    pub fn get(&self, id: usize) -> (r: Option<usize>)
        ensures
            r == if self.arrays@.contains_key(id) { Some(self.arrays@[id]) } else { None::<usize> },
    {
        match self.arrays.get(&id) {
            Some(a) => Some(*a),
            None => None,
        }
    }

    /// Records that undoing takes `op` back from `(id, num)`.
    pub fn add_undo(&mut self, id: usize, num: u16, op: i16)
        requires
            i16::MIN <= undo_of(old(self).undos@, id, num) - op <= i16::MAX,
        ensures
            final(self).arrays@ == old(self).arrays@,
            undo_of(final(self).undos@, id, num) == undo_of(old(self).undos@, id, num) - op,
            forall|i: usize, n: u16| !(i == id && n == num) ==> undo_of(final(self).undos@, i, n) == undo_of(old(self).undos@, i, n),
    {
        let old_v = self.find_undo(id, num);
        self.undos.push((id, num, old_v - op));
        assert(self.undos@.drop_last() =~= old(self).undos@);
    }

    fn find_undo(&self, id: usize, num: u16) -> (r: i16)
        ensures
            r == undo_of(self.undos@, id, num),
    {
        let mut k: usize = self.undos.len();
        assert(self.undos@.take(k as int) =~= self.undos@);
        while k > 0
            invariant
                k <= self.undos@.len(),
                undo_of(self.undos@, id, num) == undo_of(self.undos@.take(k as int), id, num),
            decreases k,
        {
            let e = self.undos[k - 1];
            proof {
                assert(self.undos@.take(k as int).drop_last() =~= self.undos@.take(k - 1));
                assert(self.undos@.take(k as int).last() == e);
            }
            if e.0 == id && e.1 == num {
                return e.2;
            }
            k = k - 1;
        }
        assert(self.undos@.take(0) =~= Seq::<(usize, u16, i16)>::empty());
        0
    }

    /// A copy for a child: the same arrays and no undo adjustments.
    pub fn copy_for_child(&self) -> (r: SemCtx)
        ensures
            r.arrays@ == self.arrays@,
            r.undos@.len() == 0,
    {
        SemCtx { arrays: self.arrays.clone(), undos: Vec::new() }
    }
}

#[derive(Clone, Copy)]
pub struct ShmTag {
    pub addr: usize,
    pub pages: usize,
}

impl ShmTag {
    pub fn set_addr(&mut self, a: usize)
        ensures
            final(self).addr == a,
            final(self).pages == old(self).pages,
    {
        self.addr = a;
    }
}

/// A task's shared memory segments by id.
pub struct ShmCtx {
    pub ids: std::collections::BTreeMap<usize, ShmTag>,
}

impl ShmCtx {
    pub fn new() -> (r: Self)
        ensures
            r.ids@ == Map::<usize, ShmTag>::empty(),
    {
        ShmCtx { ids: std::collections::BTreeMap::new() }
    }

    /// Files segment `g`, not yet attached, under the lowest free id.
    pub fn add(&mut self, g: usize) -> (id: usize)
        requires
            old(self).ids@.len() < usize::MAX,
        ensures
            !old(self).ids@.contains_key(id),
            forall|k: usize| k < id ==> old(self).ids@.contains_key(k),
            final(self).ids@ == old(self).ids@.insert(id, ShmTag { addr: 0, pages: g }),
    {
        let id = lowest_free(&self.ids);
        self.ids.insert(id, ShmTag { addr: 0, pages: g });
        id
    }

    pub fn get(&self, id: usize) -> (r: Option<ShmTag>)
        ensures
            r == if self.ids@.contains_key(id) { Some(self.ids@[id]) } else { None::<ShmTag> },
    {
        match self.ids.get(&id) {
            Some(t) => Some(*t),
            None => None,
        }
    }

    pub fn set(&mut self, id: usize, tag: ShmTag)
        ensures
            final(self).ids@ == old(self).ids@.insert(id, tag),
    {
        self.ids.insert(id, tag);
    }

    /// The lowest id whose segment is attached at `addr`, if any.
    pub fn get_id_by_addr(&self, addr: usize) -> (r: Option<usize>)
        ensures
            r matches Some(id) ==> self.ids@.contains_key(id) && self.ids@[id].addr == addr,
            r matches Some(id) ==> forall|k: usize|
                k < id && #[trigger] self.ids@.contains_key(k) ==> self.ids@[k].addr != addr,
            r is None ==> forall|k: usize| #[trigger] self.ids@.contains_key(k) ==> self.ids@[k].addr != addr,
    {
        broadcast use vstd::std_specs::btree::group_btree_axioms;
        proof {
            crate::ordkeys::lemma_word_keys_ordered();
        }
        for kv in it: self.ids.iter()
            invariant
                forall|j: int| 0 <= j < it.index() ==> (*it.seq()[j].1).addr != addr,
                vstd::std_specs::btree::increasing_seq(
                    vstd::std_specs::iter::IteratorSpec::remaining(&vstd::std_specs::btree::spec_btree_map_iter(
                        &self.ids,
                    )).map_values(|q: (&usize, &ShmTag)| *q.0),
                ),
        {
            if kv.1.addr == addr {
                proof {
                    crate::ordkeys::lemma_word_keys_ordered();
                    let s = it.seq();
                    let n = it.index();
                    let keys = s.map_values(|p: (&usize, &ShmTag)| *p.0);
                    assert(kv == s[n]);
                    assert(keys[n] == *kv.0);
                    let whole = vstd::std_specs::iter::IteratorSpec::remaining(&vstd::std_specs::btree::spec_btree_map_iter(&self.ids));
                    assert(s == whole);
                    assert(whole.map_values(|q: (&usize, &ShmTag)| *q.0) =~= keys);
                    assert(vstd::std_specs::btree::increasing_seq(keys));
                    assert forall|k: usize| k < *kv.0 && #[trigger] self.ids@.contains_key(k) implies self.ids@[k].addr != addr by {
                        assert(s.contains((&k, &self.ids@[k])));
                        let j = choose|j: int| 0 <= j < s.len() && s[j] == (&k, &self.ids@[k]);
                        assert(keys[j] == k);
                        if j > n {
                            assert(keys[n] < keys[j]);
                        }
                    }
                }
                return Some(*kv.0);
            }
        }
        None
    }

    pub fn pop(&mut self, id: usize)
        ensures
            final(self).ids@ == old(self).ids@.remove(id),
    {
        self.ids.remove(&id);
    }

    pub fn copy_ctx(&self) -> (r: ShmCtx)
        ensures
            r.ids@ == self.ids@,
    {
        ShmCtx { ids: self.ids.clone() }
    }
}

/// How many handles in `s` are ends of pipe `i`.
pub open spec fn pipe_refs(s: Seq<(usize, FLike)>, i: usize) -> nat
    decreases s.len(),
{
    if s.len() == 0 {
        0
    } else {
        pipe_refs(s.drop_last(), i) + match s.last().1 {
            FLike::Pipe(p) => if p.data == i { 1nat } else { 0nat },
            _ => 0nat,
        }
    }
}

/// Every pipe of `store` can lose `k` more ends without its count
/// leaving `i32`.
pub open spec fn pipe_slack(store: &FileStore, k: int) -> bool {
    forall|i: int| 0 <= i < store.pipes@.len() ==> (#[trigger] store.pipes@[i]).ends > i32::MIN + k
}

/// Whether every pipe of `store` can lose `k` more ends without its count
/// going below the least `i32`.
pub fn pipe_slack_check(store: &FileStore, k: usize) -> (r: bool)
    ensures
        r == pipe_slack(store, k as int),
{
    let n = store.pipes.len();
    let mut i: usize = 0;
    while i < n
        invariant
            i <= n,
            n == store.pipes@.len(),
            forall|j: int| 0 <= j < i ==> (#[trigger] store.pipes@[j]).ends > i32::MIN + k,
        decreases n - i,
    {
        let e = store.pipes[i].ends;
        if (e as i128) <= (i32::MIN as i128) + (k as i128) {
            assert(store.pipes@[i as int].ends <= i32::MIN + k);
            return false;
        }
        i += 1;
    }
    true
}

/// `s1` is `s0` after the handles of `s` let go of their objects: each
/// pipe loses one end per handle on it and is marked closed if it had any.
pub open spec fn released_all(s: Seq<(usize, FLike)>, s0: &FileStore, s1: &FileStore) -> bool {
    &&& s1.pipes@.len() == s0.pipes@.len()
    &&& forall|i: int|
        0 <= i < s0.pipes@.len() ==> {
            let n = pipe_refs(s, i as usize);
            &&& (#[trigger] s1.pipes@[i]).buf@ == s0.pipes@[i].buf@
            &&& s1.pipes@[i].ends == s0.pipes@[i].ends - n
            &&& s1.pipes@[i].ev == if n > 0 { s0.pipes@[i].ev | crate::file::EV_CLOSED } else { s0.pipes@[i].ev }
        }
    &&& s1.datas@ == s0.datas@
    &&& s1.descs@ == s0.descs@
    &&& s1.sets@ == s0.sets@
}

/// Signal entry `e` is for thread `tid` (or for any thread), names a
/// signal that fits the mask, and that signal is not blocked.
pub open spec fn sig_hits(e: (i32, isize), tid: usize, mask: u64) -> bool {
    &&& (e.1 == -1 || e.1 as usize == tid)
    &&& 0 <= e.0 < 64
    &&& mask & (1u64 << (e.0 as u64)) == 0
}

pub struct Task {
    pub info: TaskInfo,
    pub parent: Option<usize>,
    pub subtasks: Vec<usize>,
    pub files: FdTable,
    pub cwd: Vec<u8>,
    pub exec_path: Vec<u8>,
    pub sem_ctx: SemCtx,
    pub shm_ctx: ShmCtx,
    pub pid: Pid,
    pub pgid: i32,
    pub threads: Vec<usize>,
    pub ev: EvBus,
    pub exit_code: usize,
    pub sig_queue: Vec<(i32, isize)>,
    pub sig_mask: u64,
    pub ep_inst: std::collections::BTreeMap<usize, EpInst>,
    pub futexes: std::collections::BTreeMap<usize, crate::futex::FutexBucket>,
    pub thd_ctx: Option<ThdCtx>,
    pub vm_token: usize,
}

impl Task {
    /// The descriptor table is in order and every handle is in `store`.
    pub open spec fn files_in(&self, store: &FileStore) -> bool {
        &&& self.files.wf()
        &&& forall|i: int| 0 <= i < self.files.entries@.len() ==> (#[trigger] self.files.entries@[i]).1.in_store(store)
    }

    /// Whether the descriptor table is in order and every handle in it
    /// refers into `store`.
    pub fn files_in_check(&self, store: &FileStore) -> (r: bool)
        ensures
            r == self.files_in(store),
    {
        if !self.files.in_order() {
            return false;
        }
        let n = self.files.entries.len();
        let mut i: usize = 0;
        while i < n
            invariant
                i <= n,
                n == self.files.entries@.len(),
                forall|j: int| 0 <= j < i ==> (#[trigger] self.files.entries@[j]).1.in_store(store),
            decreases n - i,
        {
            if !self.files.entries[i].1.in_store_check(store) {
                return false;
            }
            i += 1;
        }
        true
    }

    /// A fresh task: no family, no files, in `/`, with a clean thread
    /// context.
    pub fn make(id: usize, tag: &[u8]) -> (t: Self)
        ensures
            t.info.id == id,
            t.info.tag@ == tag@,
            t.info.status is None,
            t.info.fds@.len() == 0,
            t.parent is None,
            t.subtasks@.len() == 0,
            t.files.wf(),
            t.files.entries@.len() == 0,
            t.cwd@ == seq![0x2fu8],
            t.exec_path@.len() == 0,
            t.sem_ctx.arrays@ == Map::<usize, usize>::empty(),
            t.sem_ctx.undos@.len() == 0,
            t.shm_ctx.ids@ == Map::<usize, ShmTag>::empty(),
            t.pid.0 == 0,
            t.pgid == 0,
            t.threads@.len() == 0,
            t.ev.ev == 0,
            t.exit_code == 0,
            t.sig_queue@.len() == 0,
            t.sig_mask == 0,
            t.ep_inst@ == Map::<usize, EpInst>::empty(),
            t.futexes@.len() == 0,
            (t.thd_ctx matches Some(c) && c.clear_tid == 0 && c.smask == 0 && c.uctx.ip == 0 && c.uctx.flags == 0
                && c.uctx.r@ == Seq::new(16, |i: int| 0u64)),
            t.vm_token == 0,
    {
        let mut cwd: Vec<u8> = Vec::new();
        cwd.push(0x2fu8);
        Task {
            info: TaskInfo { id, tag: crate::mount::copy_bytes(tag), status: None, fds: Vec::new() },
            parent: None,
            subtasks: Vec::new(),
            files: IdMap::new(),
            cwd,
            exec_path: Vec::new(),
            sem_ctx: SemCtx::new(),
            shm_ctx: ShmCtx::new(),
            pid: Pid::new(),
            pgid: 0,
            threads: Vec::new(),
            ev: EvBus::make(),
            exit_code: 0,
            sig_queue: Vec::new(),
            sig_mask: 0,
            ep_inst: std::collections::BTreeMap::new(),
            futexes: std::collections::BTreeMap::new(),
            thd_ctx: Some(ThdCtx::default()),
            vm_token: 0,
        }
    }

    /// Looks up the waiter list kept for the user word at the given address,
    /// adding an empty list when there is none, and returns that address.
    pub fn get_futex(&mut self, uaddr: usize) -> (r: usize)
        ensures
            r == uaddr,
            *final(self) == (Task { futexes: final(self).futexes, ..*old(self) }),
            final(self).futexes@.dom() == old(self).futexes@.dom().insert(uaddr),
            forall|k: usize| k != uaddr && #[trigger] old(self).futexes@.contains_key(k)
                ==> final(self).futexes@[k] == old(self).futexes@[k],
            old(self).futexes@.contains_key(uaddr) ==> final(self).futexes@[uaddr] == old(self).futexes@[uaddr],
            !old(self).futexes@.contains_key(uaddr) ==> final(self).futexes@[uaddr].waiters@.len() == 0
                && final(self).futexes@[uaddr].woken@.len() == 0,
    {
        if !self.futexes.contains_key(&uaddr) {
            self.futexes.insert(uaddr, crate::futex::FutexBucket::new());
        }
        uaddr
    }

    pub fn id(&self) -> (r: usize)
        ensures
            r == self.info.id,
    {
        self.info.id
    }

    pub fn tag(&self) -> (r: Vec<u8>)
        ensures
            r@ == self.info.tag@,
    {
        crate::mount::copy_bytes(self.info.tag.as_slice())
    }

    pub fn link_parent(&mut self, p: usize)
        ensures
            *final(self) == (Task { parent: Some(p), ..*old(self) }),
    {
        self.parent = Some(p);
    }

    pub fn link_child(&mut self, c: usize)
        ensures
            final(self).subtasks@ == old(self).subtasks@.push(c),
            *final(self) == (Task { subtasks: final(self).subtasks, ..*old(self) }),
    {
        self.subtasks.push(c);
    }

    pub fn done(&self) -> (r: bool)
        ensures
            r == self.info.status is Some,
    {
        self.info.status.is_some()
    }

    pub fn n_children(&self) -> (r: usize)
        ensures
            r == self.subtasks@.len(),
    {
        self.subtasks.len()
    }

    /// The lowest descriptor number not open.
    pub fn get_free_fd(&self) -> (r: usize)
        requires
            self.files.wf(),
            self.files.entries@.len() < usize::MAX,
        ensures
            !has_fd(self.files.entries@, r),
            forall|k: usize| k < r ==> has_fd(self.files.entries@, k),
    {
        self.files.free_from(0)
    }

    /// The lowest descriptor number from `arg` on that is not open.
    pub fn get_free_fd_from(&self, arg: usize) -> (r: usize)
        requires
            self.files.wf(),
            arg + self.files.entries@.len() < usize::MAX,
        ensures
            arg <= r,
            !has_fd(self.files.entries@, r),
            forall|k: usize| arg <= k < r ==> has_fd(self.files.entries@, k),
    {
        self.files.free_from(arg)
    }

    /// Opens `fl` on the lowest free descriptor number and returns it.
    pub fn add_file(&mut self, fl: FLike) -> (fd: usize)
        requires
            old(self).files.wf(),
            old(self).files.entries@.len() < usize::MAX,
        ensures
            final(self).files.wf(),
            !has_fd(old(self).files.entries@, fd),
            forall|k: usize| k < fd ==> has_fd(old(self).files.entries@, k),
            exists|p: int|
                0 <= p <= old(self).files.entries@.len() && final(self).files.entries@ == old(self).files.entries@.insert(
                    p,
                    (fd, fl),
                ),
            final(self).files.view_map() == old(self).files.view_map().insert(fd, fl),
            *final(self) == (Task { files: final(self).files, ..*old(self) }),
    {
        let fd = self.files.free_from(0);
        self.files.insert(fd, fl);
        fd
    }

    /// A copy of the handle open on `fd`.
    pub fn get_file(&self, fd: usize) -> (r: Option<FLike>)
        requires
            self.files.wf(),
        ensures
            r is None <==> !has_fd(self.files.entries@, fd),
            r matches Some(g) ==> exists|i: int|
                #[trigger] fd_at(self.files.entries@, fd, i) && same_object(&self.files.entries@[i].1, &g),
    {
        match self.files.get(fd) {
            Some(f) => Some(f.cloned()),
            None => None,
        }
    }

    /// Ends the process: every descriptor is closed, the task's own bus
    /// says it quit, its exit code and status are recorded, it has no
    /// threads left. Returns the parent, whose bus must learn that a child
    /// quit.
    pub fn exit_proc(&mut self, store: &mut FileStore, code: usize) -> (r: Option<usize>)
        requires
            old(self).files_in(old(store)),
            pipe_slack(old(store), old(self).files.entries@.len() as int),
        ensures
            r == old(self).parent,
            exited_task(*old(self), *final(self), code),
            released_all(old(self).files.entries@, old(store), final(store)),
    {
        let ghost s = self.files.entries@;
        let ghost s0 = *store;
        let mut k: usize = 0;
        let n = self.files.entries.len();
        let np = store.pipes.len();
        while self.files.entries.len() > 0
            invariant
                np == s0.pipes@.len(),
                k <= n,
                n == s.len(),
                self.files.entries@ == s.skip(k as int),
                forall|i: int| 0 <= i < s.len() ==> (#[trigger] s[i]).1.in_store(&s0),
                released_all(s.take(k as int), &s0, store),
                pipe_slack(&s0, s.len() as int),
                store.pipes@.len() == s0.pipes@.len(),
                store.datas@.len() == s0.datas@.len(),
                store.descs@.len() == s0.descs@.len(),
                store.sets@.len() == s0.sets@.len(),
                self.info.id == old(self).info.id,
                self.info.tag@ == old(self).info.tag@,
                self.info.status == old(self).info.status,
                self.parent == old(self).parent,
                self.subtasks@ == old(self).subtasks@,
                self.pgid == old(self).pgid,
                self.sig_queue@ == old(self).sig_queue@,
                self.sig_mask == old(self).sig_mask,
                self.ev.ev == old(self).ev.ev,
            decreases self.files.entries@.len(),
        {
            let e = self.files.entries.remove(0);
            proof {
                assert(s.skip(k as int)[0] == s[k as int]);
                assert(self.files.entries@ =~= s.skip(k + 1));
                assert(s.take(k + 1).drop_last() =~= s.take(k as int));
                assert(s.take(k + 1).last() == s[k as int]);
                lemma_pipe_refs_bound(s, k as int);
            }
            let ghost mid = *store;
            e.1.release(store);
            proof {
                assert(released_all(s.take(k + 1), &s0, store)) by {
                    assert forall|i: int| 0 <= i < s0.pipes@.len() implies {
                        let n = pipe_refs(s.take(k + 1), i as usize);
                        &&& (#[trigger] store.pipes@[i]).buf@ == s0.pipes@[i].buf@
                        &&& store.pipes@[i].ends == s0.pipes@[i].ends - n
                        &&& store.pipes@[i].ev == if n > 0 { s0.pipes@[i].ev | crate::file::EV_CLOSED } else { s0.pipes@[i].ev }
                    } by {
                        lemma_or_closed_twice(s0.pipes@[i].ev);
                        assert((i as usize) as int == i);
                        let m = pipe_refs(s.take(k as int), i as usize);
                        assert(mid.pipes@[i].ends == s0.pipes@[i].ends - m);
                        assert(mid.pipes@[i].buf@ == s0.pipes@[i].buf@);
                        match e.1 {
                            FLike::Pipe(p) => {
                                if p.data == i {
                                    assert(pipe_refs(s.take(k + 1), i as usize) == m + 1);
                                    assert(store.pipe_bytes(p.data) == mid.pipe_bytes(p.data));
                                } else {
                                    assert(pipe_refs(s.take(k + 1), i as usize) == m);
                                }
                            },
                            _ => {
                                assert(pipe_refs(s.take(k + 1), i as usize) == m);
                            },
                        }
                    }
                }
            }
            k = k + 1;
        }
        proof {
            assert(k == n);
            assert(s.take(k as int) =~= s);
        }
        self.ev.set(EV_PROC_QUIT);
        let ec = (code & 0xFF) | ((code >> 8usize) << 8usize);
        assert(ec == code) by (bit_vector)
            requires
                ec == (code & 0xFF) | ((code >> 8usize) << 8usize),
        ;
        self.exit_code = ec;
        self.threads.clear();
        self.info.status = Some((code & 0xFF) as i32);
        self.parent
    }

    /// The task has no threads left or has a status.
    pub fn exited(&self) -> (r: bool)
        ensures
            r == (self.threads@.len() == 0 || self.info.status is Some),
    {
        self.threads.len() == 0 || self.info.status.is_some()
    }

    /// A handle on the epoll instance open on `fd`.
    pub fn get_ep_mut(&self, fd: usize) -> (r: Result<EpInst, &'static str>)
        ensures
            !self.ep_inst@.contains_key(fd) ==> r == Err::<EpInst, &'static str>("eperm"),
            self.ep_inst@.contains_key(fd) ==> (r matches Ok(e) && e.events@ == self.ep_inst@[fd].events@
                && e.ready == self.ep_inst@[fd].ready && e.new_ctl == self.ep_inst@[fd].new_ctl),
    {
        match self.ep_inst.get(&fd) {
            Some(e) => Ok(e.dup()),
            None => Err("eperm"),
        }
    }

    pub fn get_ep_ref(&self, fd: usize) -> (r: Result<EpInst, &'static str>)
        ensures
            !self.ep_inst@.contains_key(fd) ==> r == Err::<EpInst, &'static str>("eperm"),
            self.ep_inst@.contains_key(fd) ==> (r matches Ok(e) && e.events@ == self.ep_inst@[fd].events@
                && e.ready == self.ep_inst@[fd].ready && e.new_ctl == self.ep_inst@[fd].new_ctl),
    {
        self.get_ep_mut(fd)
    }

    pub fn set_ep(&mut self, fd: usize, inst: EpInst)
        ensures
            final(self).ep_inst@ == old(self).ep_inst@.insert(fd, inst),
    {
        self.ep_inst.insert(fd, inst);
    }

    /// Takes the saved thread context out to run it; a task with none
    /// runs a clean one.
    pub fn begin_run(&mut self) -> (r: ThdCtx)
        ensures
            *final(self) == (Task { thd_ctx: None, ..*old(self) }),
            old(self).thd_ctx matches Some(c) ==> r == c,
            old(self).thd_ctx is None ==> r.clear_tid == 0 && r.smask == 0 && r.uctx.ip == 0 && r.uctx.flags == 0
                && r.uctx.r@ == Seq::new(16, |i: int| 0u64),
    {
        match self.thd_ctx.take() {
            Some(ctx) => ctx,
            None => ThdCtx::default(),
        }
    }

    pub fn end_run(&mut self, cx: ThdCtx)
        ensures
            *final(self) == (Task { thd_ctx: Some(cx), ..*old(self) }),
    {
        self.thd_ctx = Some(cx);
    }

    /// Some queued signal is for this thread and not blocked.
    pub fn has_sig(&self) -> (r: bool)
        ensures
            r == exists|i: int| 0 <= i < self.sig_queue@.len() && sig_hits(#[trigger] self.sig_queue@[i], self.info.id, self.sig_mask),
    {
        if self.sig_queue.len() == 0 {
            return false;
        }
        let sm = self.sig_mask;
        let tid = self.id();
        let mut i: usize = 0;
        while i < self.sig_queue.len()
            invariant
                i <= self.sig_queue@.len(),
                sm == self.sig_mask,
                tid == self.info.id,
                forall|j: int| 0 <= j < i ==> !sig_hits(#[trigger] self.sig_queue@[j], tid, sm),
            decreases self.sig_queue@.len() - i,
        {
            let (s, snd) = self.sig_queue[i];
            let for_us = snd == -1 || snd as usize == tid;
            if for_us {
                let bit: u64 = if s >= 0 && (s as u32) < 64 { 1u64 << (s as u64) } else { 0 };
                if s >= 0 && (s as u32) < 64 {
                    assert(1u64 << (s as u64) != 0) by (bit_vector)
                        requires
                            0 <= s < 64,
                    ;
                }
                if bit != 0 && (sm & bit) == 0 {
                    assert(sig_hits(self.sig_queue@[i as int], tid, sm));
                    return true;
                }
            }
            i = i + 1;
        }
        false
    }

    /// Queues `signo` from `sender_tid` (-1 for any thread) and raises the
    /// bus's signal bit.
    pub fn send_sig(&mut self, signo: i32, sender_tid: isize)
        ensures
            signaled(*old(self), *final(self), signo, sender_tid),
    {
        self.sig_queue.push((signo, sender_tid));
        self.ev.set(EV_RECV_SIG);
    }

    /// Closes `fd`; a descriptor that is not open is refused.
    pub fn close_fd(&mut self, store: &mut FileStore, fd: usize) -> (r: Result<(), &'static str>)
        requires
            old(self).files_in(old(store)),
            pipe_slack(old(store), 1),
        ensures
            final(self).files.wf(),
            r is Err <==> !has_fd(old(self).files.entries@, fd),
            r is Err ==> r == Err::<(), &'static str>("ebadf") && final(self).files.entries@ == old(self).files.entries@
                && *final(store) == *old(store),
            r is Ok ==> exists|i: int|
                #[trigger] fd_at(old(self).files.entries@, fd, i) && final(self).files.entries@ == old(
                    self,
                ).files.entries@.remove(i) && released(&old(self).files.entries@[i].1, old(store), final(store)),
    {
        match self.files.remove(fd) {
            Some(fl) => {
                proof {
                    let i = choose|i: int| #[trigger] fd_at(old(self).files.entries@, fd, i) && fl == old(self).files.entries@[i].1
                        && self.files.entries@ == old(self).files.entries@.remove(i);
                    assert(old(self).files.entries@[i].1.in_store(store));
                }
                fl.release(store);
                Ok(())
            },
            None => Err("ebadf"),
        }
    }

    /// Opens a duplicate of `old_fd` on the lowest free descriptor, with
    /// the given close-on-exec flag; the copy taken on the way is let go.
    pub fn dup_fd(&mut self, store: &mut FileStore, old_fd: usize, cloexec: bool) -> (r: Result<usize, &'static str>)
        requires
            old(self).files_in(old(store)),
            pipe_slack(old(store), 1),
            old(self).files.entries@.len() < usize::MAX,
        ensures
            final(self).files.wf(),
            !old(self).files.view_map().contains_key(old_fd) ==> r == Err::<usize, &'static str>("ebadf")
                && final(self).files.entries@ == old(self).files.entries@ && *final(store) == *old(store),
            old(self).files.view_map().contains_key(old_fd) ==> r is Ok,
            r matches Ok(nfd) ==> {
                &&& old(self).files.view_map().contains_key(old_fd)
                &&& !old(self).files.view_map().contains_key(nfd)
                &&& forall|k: usize| k < nfd ==> old(self).files.view_map().contains_key(k)
                &&& final(self).files.view_map().dom() == old(self).files.view_map().dom().insert(nfd)
                &&& forall|k: usize| k != nfd ==> #[trigger] final(self).files.view_map()[k] == old(self).files.view_map()[k]
                &&& same_object(&old(self).files.view_map()[old_fd], &final(self).files.view_map()[nfd])
                &&& (final(self).files.view_map()[nfd] matches FLike::File(h) ==> h.cloexec == cloexec)
                &&& released(&old(self).files.view_map()[old_fd], old(store), final(store))
            },
    {
        let fl = match self.files.get(old_fd) {
            Some(f) => f.cloned(),
            None => {
                return Err("ebadf");
            },
        };
        proof {
            let i = choose|i: int| #[trigger] fd_at(self.files.entries@, old_fd, i);
            let jb = choose|jb: int| fd_at(self.files.entries@, old_fd, jb);
            crate::fdtable::lemma_fd_at_unique(self.files.entries@, old_fd, i, jb);
            assert(self.files.entries@[i].1.in_store(store));
        }
        let ghost orig = self.files.view_map()[old_fd];
        let ghost m0 = self.files.view_map();
        assert(same_object(&orig, &fl));
        let nfl = fl.dup(cloexec);
        let ghost g = nfl;
        let nfd = self.files.free_from(0);
        self.files.insert(nfd, nfl);
        fl.release(store);
        proof {
            assert(same_object(&orig, &g));
            assert(self.files.view_map() == m0.insert(nfd, g));
            assert(g matches FLike::File(h) ==> h.cloexec == cloexec);
            assert(m0 == old(self).files.view_map());
            assert(self.files.view_map() == old(self).files.view_map().insert(nfd, g));
            lemma_released_same(&orig, &fl, old(store), store);
            assert(!m0.contains_key(nfd));
        }
        Ok(nfd)
    }

    /// Opens a duplicate of `old_fd` on `new_fd`, closing what was there;
    /// the copy taken on the way is let go. Duplicating a descriptor onto
    /// itself does nothing.
    pub fn dup2_fd(&mut self, store: &mut FileStore, old_fd: usize, new_fd: usize) -> (r: Result<usize, &'static str>)
        requires
            old(self).files_in(old(store)),
            pipe_slack(old(store), 2),
        ensures
            final(self).files.wf(),
            old_fd == new_fd ==> r == Ok::<usize, &'static str>(new_fd) && final(self).files.entries@ == old(
                self,
            ).files.entries@ && *final(store) == *old(store),
            old_fd != new_fd && !old(self).files.view_map().contains_key(old_fd) ==> r == Err::<usize, &'static str>(
                "ebadf",
            ) && final(self).files.entries@ == old(self).files.entries@ && *final(store) == *old(store),
            old_fd != new_fd && old(self).files.view_map().contains_key(old_fd) ==> {
                &&& r == Ok::<usize, &'static str>(new_fd)
                &&& exists|g: FLike|
                    same_object(&old(self).files.view_map()[old_fd], &g) && (g matches FLike::File(h) ==> !h.cloexec)
                        && #[trigger] final(self).files.view_map() == old(self).files.view_map().insert(new_fd, g)
                &&& exists|mid: FileStore|
                    (if old(self).files.view_map().contains_key(new_fd) {
                        released(&old(self).files.view_map()[new_fd], old(store), &mid)
                    } else {
                        mid == *old(store)
                    }) && #[trigger] released(&old(self).files.view_map()[old_fd], &mid, final(store))
            },
    {
        if old_fd == new_fd {
            return Ok(new_fd);
        }
        let fl = match self.files.get(old_fd) {
            Some(f) => f.cloned(),
            None => {
                return Err("ebadf");
            },
        };
        proof {
            let i = choose|i: int| #[trigger] fd_at(self.files.entries@, old_fd, i);
            let jb = choose|jb: int| fd_at(self.files.entries@, old_fd, jb);
            crate::fdtable::lemma_fd_at_unique(self.files.entries@, old_fd, i, jb);
            assert(self.files.entries@[i].1.in_store(store));
        }
        let ghost orig = self.files.view_map()[old_fd];
        let ghost m0 = self.files.view_map();
        assert(same_object(&orig, &fl));
        let nfl = fl.dup(false);
        let ghost g = nfl;
        let ghost before = self.files.entries@;
        let prev = self.files.remove(new_fd);
        self.files.insert(new_fd, nfl);
        match prev {
            Some(pf) => {
                proof {
                    let i = choose|i: int| #[trigger] fd_at(before, new_fd, i) && pf == before[i].1;
                    assert(before[i].1.in_store(store));
                }
                pf.release(store);
            },
            None => {},
        }
        let ghost mid = *store;
        proof {
            if fl is Pipe {
                assert(store.pipes@[fl->Pipe_0.data as int].ends > i32::MIN);
            }
        }
        fl.release(store);
        proof {
            assert(same_object(&orig, &g));
            assert(self.files.view_map() == m0.remove(new_fd).insert(new_fd, g));
            assert(self.files.view_map() =~= m0.insert(new_fd, g));
            lemma_released_same(&orig, &fl, &mid, store);
        }
        Ok(new_fd)
    }

    pub fn fd_count(&self) -> (r: usize)
        ensures
            r == self.files.entries@.len(),
    {
        self.files.len()
    }

    /// Accepts an open descriptor and leaves its flag as it is.
    pub fn set_cloexec(&self, fd: usize, val: bool) -> (r: Result<(), &'static str>)
        requires
            self.files.wf(),
        ensures
            r == if has_fd(self.files.entries@, fd) {
                Ok::<(), &'static str>(())
            } else {
                Err::<(), &'static str>("ebadf")
            },
    {
        if self.files.contains_key(fd) {
            Ok(())
        } else {
            Err("ebadf")
        }
    }
}

proof fn lemma_released_same(a: &FLike, b: &FLike, s0: &FileStore, s1: &FileStore)
    requires
        same_object(a, b),
        released(b, s0, s1),
    ensures
        released(a, s0, s1),
{
}

proof fn lemma_or_closed_twice(ev: u32)
    ensures
        (ev | crate::file::EV_CLOSED) | crate::file::EV_CLOSED == ev | crate::file::EV_CLOSED,
{
    assert((ev | 8u32) | 8u32 == ev | 8u32) by (bit_vector);
}

proof fn lemma_pipe_refs_bound(s: Seq<(usize, FLike)>, k: int)
    requires
        0 <= k <= s.len(),
    ensures
        forall|i: usize| #[trigger] pipe_refs(s.take(k), i) <= k,
    decreases k,
{
    if k > 0 {
        lemma_pipe_refs_bound(s, k - 1);
        assert(s.take(k).drop_last() =~= s.take(k - 1));
        assert forall|i: usize| #[trigger] pipe_refs(s.take(k), i) <= k by {
            assert(pipe_refs(s.take(k - 1), i) <= k - 1);
        }
    } else {
        assert forall|i: usize| #[trigger] pipe_refs(s.take(k), i) <= k by {
            assert(s.take(k).len() == 0);
        }
    }
}

/// The tasks by id, the next id to hand out, and the task that orphans go
/// to.
pub struct TaskTable {
    pub map: IdMap<Task>,
    pub seq: usize,
    pub root: Option<usize>,
}

/// `after` is `before` with `signo` from `sender` queued and the signal bit
/// raised, all else unchanged.
pub open spec fn signaled(before: Task, after: Task, signo: i32, sender: isize) -> bool {
    &&& after.sig_queue@ == before.sig_queue@.push((signo, sender))
    &&& after.ev.ev == before.ev.ev | EV_RECV_SIG
    &&& after.sig_mask == before.sig_mask
    &&& after.info == before.info
    &&& after.pgid == before.pgid
    &&& after.parent == before.parent
    &&& after.subtasks == before.subtasks
    &&& after.files == before.files
    &&& after.cwd == before.cwd
    &&& after.exec_path == before.exec_path
    &&& after.sem_ctx == before.sem_ctx
    &&& after.shm_ctx == before.shm_ctx
    &&& after.pid == before.pid
    &&& after.threads == before.threads
    &&& after.exit_code == before.exit_code
    &&& after.ep_inst == before.ep_inst
    &&& after.thd_ctx == before.thd_ctx
    &&& after.vm_token == before.vm_token
}

/// `s` is `f`'s descriptors, each duplicated without close-on-exec.
pub open spec fn dup_table(f: Map<usize, FLike>, g: Map<usize, FLike>) -> bool {
    &&& g.dom() == f.dom()
    &&& forall|k: usize|
        #[trigger] g.contains_key(k) ==> same_object(&f[k], &g[k]) && (g[k] matches FLike::File(h) ==> !h.cloexec)
}

impl TaskTable {
    pub open spec fn wf(&self) -> bool {
        self.map.wf()
    }

    pub open spec fn tasks(&self) -> Map<usize, Task> {
        self.map.view_map()
    }

    pub fn new() -> (r: Self)
        ensures
            r.wf(),
            r.tasks() == Map::<usize, Task>::empty(),
            r.seq == 1,
            r.root is None,
    {
        let r = TaskTable { map: IdMap::new(), seq: 1, root: None };
        assert(r.tasks() =~= Map::<usize, Task>::empty());
        r
    }

    fn next_id(&mut self) -> (id: usize)
        ensures
            id == old(self).seq,
            final(self).seq == vstd::wrapping::usize_specs::wrapping_add(old(self).seq, 1),
            final(self).map == old(self).map,
            final(self).root == old(self).root,
    {
        let id = self.seq;
        self.seq = self.seq.wrapping_add(1);
        id
    }

    /// Makes a task under the next id, files it, and returns the id.
    pub fn spawn(&mut self, tag: &[u8]) -> (id: usize)
        requires
            old(self).wf(),
        ensures
            final(self).wf(),
            id == old(self).seq,
            final(self).seq == vstd::wrapping::usize_specs::wrapping_add(old(self).seq, 1),
            final(self).root == old(self).root,
            final(self).tasks().dom() == old(self).tasks().dom().insert(id),
            forall|k: usize| k != id ==> #[trigger] final(self).tasks()[k] == old(self).tasks()[k],
            fresh_task(final(self).tasks()[id], id, tag@),
    {
        let id = self.next_id();
        let t = Task::make(id, tag);
        self.map.insert(id, t);
        id
    }

    /// Spawns `init` and makes it the root.
    pub fn spawn_root(&mut self) -> (id: usize)
        requires
            old(self).wf(),
        ensures
            final(self).wf(),
            id == old(self).seq,
            final(self).root == Some(id),
            final(self).tasks().dom() == old(self).tasks().dom().insert(id),
            forall|k: usize| k != id ==> #[trigger] final(self).tasks()[k] == old(self).tasks()[k],
            fresh_task(final(self).tasks()[id], id, seq![0x69u8, 0x6e, 0x69, 0x74]),
    {
        let mut tag: Vec<u8> = Vec::new();
        tag.push(0x69u8);
        tag.push(0x6e);
        tag.push(0x69);
        tag.push(0x74);
        assert(tag@ =~= seq![0x69u8, 0x6e, 0x69, 0x74]);
        let id = self.spawn(tag.as_slice());
        self.root = Some(id);
        id
    }

    pub fn find(&self, id: usize) -> (r: Option<&Task>)
        requires
            self.wf(),
        ensures
            r is None <==> !self.tasks().contains_key(id),
            r matches Some(t) ==> *t == self.tasks()[id],
    {
        let r = self.map.get(id);
        proof {
            if r is Some {
                let i = choose|i: int| #[trigger] fd_at(self.map.entries@, id, i) && *r->0 == self.map.entries@[i].1;
                let j = choose|j: int| fd_at(self.map.entries@, id, j);
                crate::fdtable::lemma_fd_at_unique(self.map.entries@, id, i, j);
            }
        }
        r
    }

    /// The ids of the tasks whose tag is `tag`, in increasing order.
    pub fn find_by_tag(&self, tag: &[u8]) -> (r: Vec<usize>)
        requires
            self.wf(),
        ensures
            r@ == ids_where(self.map.entries@, |t: Task| t.info.tag@ == tag@),
    {
        let mut out: Vec<usize> = Vec::new();
        let mut i: usize = 0;
        while i < self.map.entries.len()
            invariant
                i <= self.map.entries@.len(),
                out@ == ids_where(self.map.entries@.take(i as int), |t: Task| t.info.tag@ == tag@),
            decreases self.map.entries@.len() - i,
        {
            proof {
                assert(self.map.entries@.take(i + 1).drop_last() =~= self.map.entries@.take(i as int));
            }
            if crate::mount::bytes_equal(self.map.entries[i].1.info.tag.as_slice(), tag) {
                out.push(self.map.entries[i].0);
            }
            i = i + 1;
        }
        assert(self.map.entries@.take(self.map.entries@.len() as int) =~= self.map.entries@);
        out
    }

    /// The first task, by id, that has thread `tid`.
    pub fn process_of_tid(&self, tid: usize) -> (r: Option<usize>)
        requires
            self.wf(),
        ensures
            r is None ==> forall|i: int| 0 <= i < self.map.entries@.len() ==> !(#[trigger] self.map.entries@[i]).1.threads@.contains(tid),
            r matches Some(id) ==> exists|i: int| #[trigger] first_with_thread(self.map.entries@, tid, i) && self.map.entries@[i].0 == id,
    {
        let mut i: usize = 0;
        while i < self.map.entries.len()
            invariant
                i <= self.map.entries@.len(),
                forall|j: int| 0 <= j < i ==> !(#[trigger] self.map.entries@[j]).1.threads@.contains(tid),
            decreases self.map.entries@.len() - i,
        {
            let th = &self.map.entries[i].1.threads;
            let mut k: usize = 0;
            while k < th.len()
                invariant
                    i < self.map.entries@.len(),
                    th@ == self.map.entries@[i as int].1.threads@,
                    forall|j: int| 0 <= j < i ==> !(#[trigger] self.map.entries@[j]).1.threads@.contains(tid),
                    k <= th@.len(),
                    forall|q: int| 0 <= q < k ==> th@[q] != tid,
                decreases th@.len() - k,
            {
                if th[k] == tid {
                    assert(th@.contains(tid));
                    assert(first_with_thread(self.map.entries@, tid, i as int));
                    return Some(self.map.entries[i].0);
                }
                k = k + 1;
            }
            assert(!th@.contains(tid));
            i = i + 1;
        }
        None
    }

    /// The ids of the tasks of process group `pgid`, in increasing order.
    pub fn pgid_group(&self, pgid: i32) -> (r: Vec<usize>)
        requires
            self.wf(),
        ensures
            r@ == ids_where(self.map.entries@, |t: Task| t.pgid == pgid),
    {
        let mut out: Vec<usize> = Vec::new();
        let mut i: usize = 0;
        while i < self.map.entries.len()
            invariant
                i <= self.map.entries@.len(),
                out@ == ids_where(self.map.entries@.take(i as int), |t: Task| t.pgid == pgid),
            decreases self.map.entries@.len() - i,
        {
            proof {
                assert(self.map.entries@.take(i + 1).drop_last() =~= self.map.entries@.take(i as int));
            }
            if self.map.entries[i].1.pgid == pgid {
                out.push(self.map.entries[i].0);
            }
            i = i + 1;
        }
        assert(self.map.entries@.take(self.map.entries@.len() as int) =~= self.map.entries@);
        out
    }

    /// Gives `task` the pid `pid` and files it under that number.
    pub fn register(&mut self, task: Task, pid: Pid)
        requires
            old(self).wf(),
        ensures
            final(self).wf(),
            final(self).seq == old(self).seq,
            final(self).root == old(self).root,
            final(self).tasks() == old(self).tasks().insert(pid.0, Task { pid: Pid(pid.0), ..task }),
    {
        let mut t = task;
        let key = pid.0;
        t.pid = pid;
        self.map.insert(key, t);
    }

    /// Takes task `id` out of the table.
    fn take_task(&mut self, id: usize) -> (r: Task)
        requires
            old(self).wf(),
            old(self).tasks().contains_key(id),
        ensures
            final(self).wf(),
            r == old(self).tasks()[id],
            final(self).tasks() == old(self).tasks().remove(id),
            final(self).seq == old(self).seq,
            final(self).root == old(self).root,
    {
        match self.map.remove(id) {
            Some(t) => t,
            None => {
                assert(false);
                Task::make(id, &[])
            },
        }
    }

    /// Queues `signo` from `sender` on task `id`; false if there is no such
    /// task.
    pub fn signal_task(&mut self, id: usize, signo: i32, sender: isize) -> (r: bool)
        requires
            old(self).wf(),
        ensures
            final(self).wf(),
            final(self).seq == old(self).seq,
            final(self).root == old(self).root,
            r == old(self).tasks().contains_key(id),
            final(self).tasks().dom() == old(self).tasks().dom(),
            r ==> signaled(old(self).tasks()[id], final(self).tasks()[id], signo, sender),
            forall|k: usize| k != id && #[trigger] old(self).tasks().contains_key(k) ==> final(self).tasks()[k] == old(self).tasks()[k],
            !r ==> final(self).tasks() == old(self).tasks(),
    {
        if self.map.contains_key(id) {
            proof {
                assert(old(self).tasks().dom().contains(id));
            }
            let mut t = self.take_task(id);
            t.send_sig(signo, sender);
            let _ = self.map.insert(id, t);
            proof {
                assert(self.tasks().dom() =~= old(self).tasks().dom());
            }
            true
        } else {
            proof {
                assert(!old(self).tasks().dom().contains(id));
            }
            false
        }
    }

    /// Copies the descriptors of `src` into `tgt`, each duplicated without
    /// close-on-exec.
    fn copy_files(src: &FdTable, tgt: &mut FdTable)
        requires
            src.wf(),
            old(tgt).wf(),
            old(tgt).entries@.len() == 0,
        ensures
            final(tgt).wf(),
            dup_table(src.view_map(), final(tgt).view_map()),
    {
        let mut i: usize = 0;
        assert(tgt.view_map() =~= Map::<usize, FLike>::empty());
        while i < src.entries.len()
            invariant
                src.wf(),
                tgt.wf(),
                i <= src.entries@.len(),
                forall|k: usize| #[trigger] tgt.view_map().contains_key(k) <==> exists|j: int| 0 <= j < i && #[trigger] src.entries@[j].0 == k,
                forall|j: int|
                    0 <= j < i ==> same_object(&(#[trigger] src.entries@[j]).1, &tgt.view_map()[src.entries@[j].0])
                        && (tgt.view_map()[src.entries@[j].0] matches FLike::File(h) ==> !h.cloexec),
            decreases src.entries@.len() - i,
        {
            let fd = src.entries[i].0;
            let fl = src.entries[i].1.dup(false);
            let ghost m0 = tgt.view_map();
            tgt.insert(fd, fl);
            proof {
                assert forall|j: int| 0 <= j < i + 1 implies same_object(&(#[trigger] src.entries@[j]).1, &tgt.view_map()[src.entries@[j].0])
                    && (tgt.view_map()[src.entries@[j].0] matches FLike::File(h) ==> !h.cloexec) by {
                    if j < i {
                        assert(src.entries@[j].0 < src.entries@[i as int].0);
                    }
                }
                assert forall|k: usize| #[trigger] tgt.view_map().contains_key(k) <==> exists|j: int| 0 <= j < i + 1 && #[trigger] src.entries@[j].0 == k by {
                    if k == fd {
                        assert(src.entries@[i as int].0 == k);
                    }
                    if exists|j: int| 0 <= j < i + 1 && #[trigger] src.entries@[j].0 == k {
                        let j = choose|j: int| 0 <= j < i + 1 && #[trigger] src.entries@[j].0 == k;
                        if j < i {
                            assert(m0.contains_key(k));
                        }
                    }
                }
            }
            i = i + 1;
        }
        proof {
            assert forall|k: usize| #[trigger] tgt.view_map().contains_key(k) implies same_object(&src.view_map()[k], &tgt.view_map()[k])
                && (tgt.view_map()[k] matches FLike::File(h) ==> !h.cloexec) by {
                let j = choose|j: int| 0 <= j < i && #[trigger] src.entries@[j].0 == k;
                assert(fd_at(src.entries@, k, j));
                let jj = choose|jj: int| fd_at(src.entries@, k, jj);
                crate::fdtable::lemma_fd_at_unique(src.entries@, k, j, jj);
            }
            assert forall|k: usize| #[trigger] tgt.view_map().contains_key(k) == src.view_map().contains_key(k) by {
                if src.view_map().contains_key(k) {
                    let jj = choose|jj: int| fd_at(src.entries@, k, jj);
                    assert(src.entries@[jj].0 == k);
                }
                if tgt.view_map().contains_key(k) {
                    let j = choose|j: int| 0 <= j < i && #[trigger] src.entries@[j].0 == k;
                    assert(fd_at(src.entries@, k, j));
                }
            }
            assert(tgt.view_map().dom() =~= src.view_map().dom());
        }
    }

    /// Forks task `src_id`: the child gets the next id, the parent's tag,
    /// directories, descriptors (duplicated, without close-on-exec),
    /// process group, semaphore arrays (without undo adjustments), shared
    /// segments and signal mask; it is filed under its id with itself as
    /// its one thread, and the parent records it as a child twice over.
    pub fn fork_task(&mut self, src_id: usize) -> (nid: usize)
        requires
            old(self).wf(),
            old(self).tasks().contains_key(src_id),
            !old(self).tasks().contains_key(old(self).seq),
            old(self).tasks()[src_id].files.wf(),
        ensures
            final(self).wf(),
            nid == old(self).seq,
            final(self).seq == vstd::wrapping::usize_specs::wrapping_add(old(self).seq, 1),
            final(self).root == old(self).root,
            final(self).tasks().dom() == old(self).tasks().dom().insert(nid),
            forall|k: usize| k != nid && k != src_id ==> #[trigger] final(self).tasks()[k] == old(self).tasks()[k],
            forked_parent(old(self).tasks()[src_id], final(self).tasks()[src_id], nid),
            forked_child(old(self).tasks()[src_id], final(self).tasks()[nid], src_id, nid),
    {
        let nid = self.next_id();
        let mut src = self.take_task(src_id);
        let mut tgt = Task::make(nid, src.info.tag.as_slice());
        tgt.cwd = crate::mount::copy_bytes(src.cwd.as_slice());
        tgt.exec_path = crate::mount::copy_bytes(src.exec_path.as_slice());
        Self::copy_files(&src.files, &mut tgt.files);
        tgt.pgid = src.pgid;
        tgt.sem_ctx = src.sem_ctx.copy_for_child();
        tgt.shm_ctx = src.shm_ctx.copy_ctx();
        tgt.sig_mask = src.sig_mask;
        tgt.parent = Some(src_id);
        src.subtasks.push(nid);
        tgt.threads.push(nid);
        src.subtasks.push(nid);
        assert(tgt.threads@ =~= seq![nid]);
        let ghost src0 = old(self).tasks()[src_id];
        let ghost t1 = Task { pid: Pid(nid), ..tgt };
        assert(forked_child(src0, t1, src_id, nid));
        self.map.insert(src_id, src);
        self.register(tgt, Pid(nid));
        assert(self.tasks()[nid] == t1);
        nid
    }

    /// Removes task `id`: it gets status 0, and each of its children gets
    /// the root as parent and joins the root's children, in order.
    pub fn reap(&mut self, id: usize)
        requires
            old(self).wf(),
        ensures
            final(self).wf(),
            final(self).seq == old(self).seq,
            final(self).root == old(self).root,
            reap_post(old(self).tasks(), final(self).tasks(), id, old(self).root),
    {
        if !self.map.contains_key(id) {
            return;
        }
        let mut t = self.take_task(id);
        t.info.status = Some(0);
        let mut ch: Vec<usize> = Vec::new();
        std::mem::swap(&mut ch, &mut t.subtasks);
        let ghost kids = ch@;
        let ghost m0 = self.tasks();
        let rt = self.root;
        match rt {
            Some(r) => {
                let mut i: usize = 0;
                while i < ch.len()
                    invariant
                        self.wf(),
                        self.seq == old(self).seq,
                        self.root == old(self).root,
                        self.root == Some(r),
                        ch@ == kids,
                        i <= kids.len(),
                        self.tasks().dom() == m0.dom(),
                        forall|k: usize|
                            #[trigger] self.tasks().contains_key(k) ==> reaped(m0[k], self.tasks()[k], k, kids.take(i as int), Some(r)),
                    decreases kids.len() - i,
                {
                    let c = ch[i];
                    proof {
                        assert(kids.take(i + 1) =~= kids.take(i as int).push(c));
                    }
                    let ghost prev = self.tasks();
                    if self.map.contains_key(c) {
                        let mut ct = self.take_task(c);
                        ct.link_parent(r);
                        self.map.insert(c, ct);
                    }
                    let ghost mid = self.tasks();
                    if self.map.contains_key(r) {
                        let mut rtask = self.take_task(r);
                        rtask.link_child(c);
                        self.map.insert(r, rtask);
                    }
                    proof {
                        assert(mid.dom() =~= prev.dom());
                        assert(self.tasks().dom() =~= prev.dom());
                        assert forall|k: usize| #[trigger] self.tasks().contains_key(k) implies reaped(m0[k], self.tasks()[k], k, kids.take(i + 1), Some(r)) by {
                            assert(reaped(m0[k], prev[k], k, kids.take(i as int), Some(r)));
                            assert(kids.take(i + 1)[i as int] == c);
                            assert(kids.take(i + 1).contains(c));
                            if k != c {
                                assert(mid[k] == prev[k]);
                                if kids.take(i + 1).contains(k) {
                                    let q = choose|q: int| 0 <= q < kids.take(i + 1).len() && #[trigger] kids.take(i + 1)[q] == k;
                                    assert(q < i);
                                    assert(kids.take(i as int)[q] == k);
                                    assert(kids.take(i as int).contains(k));
                                } else {
                                    assert forall|q: int| 0 <= q < kids.take(i as int).len() implies kids.take(i as int)[q] != k by {
                                        assert(kids.take(i + 1)[q] == kids.take(i as int)[q]);
                                    }
                                }
                            }
                            if k != r {
                                assert(self.tasks()[k] == mid[k]);
                            } else {
                                assert(self.tasks()[k].subtasks@ == mid[k].subtasks@.push(c));
                                assert(mid[k].subtasks@ == prev[k].subtasks@);
                                assert((m0[k].subtasks@ + kids.take(i as int)).push(c) =~= m0[k].subtasks@ + kids.take(i + 1));
                            }
                            if k == c {
                                assert(mid[k].parent == Some(r));
                            }
                        }
                    }
                    i = i + 1;
                }
                assert(kids.take(kids.len() as int) =~= kids);
            },
            None => {
                proof {
                    assert forall|k: usize| #[trigger] self.tasks().contains_key(k) implies reaped(m0[k], self.tasks()[k], k, kids, None) by {}
                }
            },
        }
    }

    /// Ends task `id` with `code` and reaps it; says whether there was
    /// such a task.
    /// Task `id` exits with `code`: its files are let go, and its parent,
    /// if it is in the table, learns that a child quit.
    pub fn exit_task(&mut self, store: &mut FileStore, id: usize, code: usize)
        requires
            old(self).wf(),
            old(self).tasks().contains_key(id),
            old(self).tasks()[id].files_in(old(store)),
            pipe_slack(old(store), old(self).tasks()[id].files.entries@.len() as int),
        ensures
            final(self).wf(),
            final(self).seq == old(self).seq,
            final(self).root == old(self).root,
            exit_post(old(self).tasks(), final(self).tasks(), id, code),
            released_all(old(self).tasks()[id].files.entries@, old(store), final(store)),
    {
        let ghost m0 = self.tasks();
        let mut t = self.take_task(id);
        let parent = t.exit_proc(store, code);
        let ghost tx = t;
        self.map.insert(id, t);
        match parent {
            Some(p) => {
                if self.map.contains_key(p) {
                    let mut pt = self.take_task(p);
                    pt.ev.set(EV_CHILD_QUIT);
                    self.map.insert(p, pt);
                }
            },
            None => {},
        }
        proof {
            let mid = self.tasks();
            assert(mid.dom() =~= m0.dom());
            assert(exited_task(m0[id], tx, code));
            assert(exit_post(m0, mid, id, code));
        }
    }

    /// Queues `signo` from `sender` on each task of `ids` (distinct, all in
    /// the table); returns how many.
    pub fn signal_all(&mut self, ids: &Vec<usize>, signo: i32, sender: isize) -> (r: usize)
        requires
            old(self).wf(),
            ids@.no_duplicates(),
            forall|q: int| 0 <= q < ids@.len() ==> old(self).tasks().contains_key(#[trigger] ids@[q]),
        ensures
            final(self).wf(),
            final(self).seq == old(self).seq,
            final(self).root == old(self).root,
            r == ids@.len(),
            final(self).tasks().dom() == old(self).tasks().dom(),
            forall|k: usize| #[trigger] final(self).tasks().contains_key(k) ==> if ids@.contains(k) {
                signaled(old(self).tasks()[k], final(self).tasks()[k], signo, sender)
            } else {
                final(self).tasks()[k] == old(self).tasks()[k]
            },
    {
        let ghost m0 = self.tasks();
        let mut i: usize = 0;
        while i < ids.len()
            invariant
                self.wf(),
                self.seq == old(self).seq,
                self.root == old(self).root,
                m0 == old(self).tasks(),
                i <= ids@.len(),
                ids@.no_duplicates(),
                forall|q: int| 0 <= q < ids@.len() ==> m0.contains_key(#[trigger] ids@[q]),
                self.tasks().dom() == m0.dom(),
                forall|k: usize| #[trigger] self.tasks().contains_key(k) ==> if ids@.take(i as int).contains(k) {
                    signaled(m0[k], self.tasks()[k], signo, sender)
                } else {
                    self.tasks()[k] == m0[k]
                },
            decreases ids@.len() - i,
        {
            let k = ids[i];
            let ghost prev = self.tasks();
            proof {
                assert(ids@.take(i + 1) =~= ids@.take(i as int).push(k));
                assert(!ids@.take(i as int).contains(k)) by {
                    if ids@.take(i as int).contains(k) {
                        let q = choose|q: int| 0 <= q < ids@.take(i as int).len() && #[trigger] ids@.take(i as int)[q] == k;
                        assert(ids@[q] == ids@[i as int]);
                    }
                }
                assert(m0.contains_key(ids@[i as int]));
            }
            let _ = self.signal_task(k, signo, sender);
            proof {
                assert forall|j: usize| #[trigger] self.tasks().contains_key(j) implies (if ids@.take(i + 1).contains(j) {
                    signaled(m0[j], self.tasks()[j], signo, sender)
                } else {
                    self.tasks()[j] == m0[j]
                }) by {
                    if j != k {
                        assert(self.tasks()[j] == prev[j]);
                        if ids@.take(i + 1).contains(j) {
                            let q = choose|q: int| 0 <= q < ids@.take(i + 1).len() && #[trigger] ids@.take(i + 1)[q] == j;
                            assert(ids@.take(i as int)[q] == j);
                        } else {
                            assert forall|q: int| 0 <= q < ids@.take(i as int).len() implies ids@.take(i as int)[q] != j by {
                                assert(ids@.take(i + 1)[q] == ids@.take(i as int)[q]);
                            }
                        }
                    } else {
                        assert(ids@.take(i + 1)[i as int] == k);
                    }
                }
            }
            i = i + 1;
        }
        proof {
            assert(ids@.take(ids@.len() as int) =~= ids@);
        }
        ids.len()
    }

    pub fn terminate_and_collect(&mut self, store: &mut FileStore, id: usize, code: usize) -> (r: bool)
        requires
            old(self).wf(),
            old(self).tasks().contains_key(id) ==> old(self).tasks()[id].files_in(old(store)),
            old(self).tasks().contains_key(id) ==> pipe_slack(old(store), old(self).tasks()[id].files.entries@.len() as int),
        ensures
            final(self).wf(),
            final(self).seq == old(self).seq,
            final(self).root == old(self).root,
            r == old(self).tasks().contains_key(id),
            !r ==> final(self).tasks() == old(self).tasks() && *final(store) == *old(store),
            r ==> released_all(old(self).tasks()[id].files.entries@, old(store), final(store)),
            r ==> exists|mid: Map<usize, Task>|
                exit_post(old(self).tasks(), mid, id, code) && #[trigger] reap_post(mid, final(self).tasks(), id, old(self).root),
    {
        if !self.map.contains_key(id) {
            return false;
        }
        assert(old(self).tasks().dom().contains(id));
        self.exit_task(store, id, code);
        self.reap(id);
        true
    }

    /// Queues `signo` on every task of process group `pgid`; returns how
    /// many there were.
    pub fn send_signal_group(&mut self, pgid: i32, signo: i32) -> (r: usize)
        requires
            old(self).wf(),
        ensures
            final(self).wf(),
            final(self).seq == old(self).seq,
            final(self).root == old(self).root,
            r == ids_where(old(self).map.entries@, |t: Task| t.pgid == pgid).len(),
            final(self).tasks().dom() == old(self).tasks().dom(),
            forall|k: usize|
                #[trigger] final(self).tasks().contains_key(k) ==> if old(self).tasks()[k].pgid == pgid {
                    signaled(old(self).tasks()[k], final(self).tasks()[k], signo, -1isize)
                } else {
                    final(self).tasks()[k] == old(self).tasks()[k]
                },
    {
        let group = self.pgid_group(pgid);
        let count = group.len();
        let ghost m0 = self.tasks();
        proof {
            let es = self.map.entries@;
            let pr = |t: Task| t.pgid == pgid;
            lemma_ids_where_members(es, pr);
            assert forall|q: int| 0 <= q < group@.len() implies m0.contains_key(#[trigger] group@[q]) && m0[group@[q]].pgid == pgid by {
                assert(key_with(es, group@[q], pr));
                let i = choose|i: int| #[trigger] fd_at(es, group@[q], i) && pr(es[i].1);
                let j = choose|j: int| fd_at(es, group@[q], j);
                crate::fdtable::lemma_fd_at_unique(es, group@[q], i, j);
            }
            assert forall|k: usize| #[trigger] m0.contains_key(k) && m0[k].pgid == pgid implies group@.contains(k) by {
                let j = choose|j: int| fd_at(es, k, j);
                assert(pr(es[j].1));
                assert(ids_where(es, pr).contains(es[j].0));
            }
        }
        let mut i: usize = 0;
        while i < group.len()
            invariant
                self.wf(),
                self.seq == old(self).seq,
                self.root == old(self).root,
                m0 == old(self).tasks(),
                i <= group@.len(),
                group@ == ids_where(old(self).map.entries@, |t: Task| t.pgid == pgid),
                group@.no_duplicates(),
                forall|q: int| 0 <= q < group@.len() ==> m0.contains_key(#[trigger] group@[q]) && m0[group@[q]].pgid == pgid,
                forall|k: usize| #[trigger] m0.contains_key(k) && m0[k].pgid == pgid ==> group@.contains(k),
                self.tasks().dom() == m0.dom(),
                forall|k: usize|
                    #[trigger] self.tasks().contains_key(k) ==> if group@.take(i as int).contains(k) {
                        signaled(m0[k], self.tasks()[k], signo, -1isize)
                    } else {
                        self.tasks()[k] == m0[k]
                    },
            decreases group@.len() - i,
        {
            let k = group[i];
            let ghost prev = self.tasks();
            proof {
                assert(group@.take(i + 1) =~= group@.take(i as int).push(k));
                assert(!group@.take(i as int).contains(k)) by {
                    if group@.take(i as int).contains(k) {
                        let q = choose|q: int| 0 <= q < group@.take(i as int).len() && #[trigger] group@.take(i as int)[q] == k;
                        assert(group@[q] == group@[i as int]);
                    }
                }
                assert(m0.contains_key(group@[i as int]));
            }
            let mut t = self.take_task(k);
            t.send_sig(signo, -1);
            self.map.insert(k, t);
            proof {
                assert(self.tasks().dom() =~= m0.dom());
                assert forall|j: usize| #[trigger] self.tasks().contains_key(j) implies (if group@.take(i + 1).contains(j) {
                    signaled(m0[j], self.tasks()[j], signo, -1isize)
                } else {
                    self.tasks()[j] == m0[j]
                }) by {
                    if j != k {
                        assert(self.tasks()[j] == prev[j]);
                        if group@.take(i + 1).contains(j) {
                            let q = choose|q: int| 0 <= q < group@.take(i + 1).len() && #[trigger] group@.take(i + 1)[q] == j;
                            assert(group@.take(i as int)[q] == j);
                        } else {
                            assert forall|q: int| 0 <= q < group@.take(i as int).len() implies group@.take(i as int)[q] != j by {
                                assert(group@.take(i + 1)[q] == group@.take(i as int)[q]);
                            }
                        }
                    } else {
                        assert(group@.take(i + 1)[i as int] == k);
                    }
                }
            }
            i = i + 1;
        }
        proof {
            assert(group@.take(group@.len() as int) =~= group@);
            assert forall|k: usize| #[trigger] self.tasks().contains_key(k) implies (group@.contains(k) <==> m0[k].pgid == pgid) by {}
        }
        count
    }

    /// Starts a new thread of task `src_id` as a task of its own, under the
    /// next id: it returns 0 to its caller, runs on `stack_top` with thread
    /// pointer `tls`, clears `clear_tid` when it ends, and shares the
    /// parent's signal mask and address space.
    pub fn clone_thread(&mut self, src_id: usize, stack_top: u64, tls: u64, clear_tid: usize) -> (id: usize)
        requires
            old(self).wf(),
            old(self).tasks().contains_key(src_id),
            !old(self).tasks().contains_key(old(self).seq),
        ensures
            final(self).wf(),
            id == old(self).seq,
            final(self).seq == vstd::wrapping::usize_specs::wrapping_add(old(self).seq, 1),
            final(self).root == old(self).root,
            final(self).tasks().dom() == old(self).tasks().dom().insert(id),
            forall|k: usize| k != id && k != src_id ==> #[trigger] final(self).tasks()[k] == old(self).tasks()[k],
            final(self).tasks()[src_id].threads@ == old(self).tasks()[src_id].threads@.push(id),
            final(self).tasks()[src_id] == (Task { threads: final(self).tasks()[src_id].threads, ..old(self).tasks()[src_id] }),
            ({
                let t = final(self).tasks()[id];
                let src = old(self).tasks()[src_id];
                &&& t.info.id == id
                &&& t.info.tag@ == src.info.tag@
                &&& t.vm_token == src.vm_token
                &&& t.thd_ctx matches Some(c) && c.clear_tid == clear_tid && c.smask == src.sig_mask && c.uctx.ip == 0
                    && c.uctx.flags == 0 && c.uctx.r@ == Seq::new(16, |i: int| 0u64).update(15, stack_top).update(14, tls)
            }),
    {
        let id = self.next_id();
        let mut src = self.take_task(src_id);
        let mut t = Task::make(id, src.info.tag.as_slice());
        let mut ctx = ThdCtx::default();
        ctx.uctx.set_ret(0);
        ctx.uctx.set_sp(stack_top);
        ctx.uctx.set_tls(tls);
        ctx.clear_tid = clear_tid;
        ctx.smask = src.sig_mask;
        assert(ctx.uctx.r@ =~= Seq::new(16, |i: int| 0u64).update(15, stack_top).update(14, tls));
        t.thd_ctx = Some(ctx);
        t.vm_token = src.vm_token;
        self.map.insert(id, t);
        src.threads.push(id);
        self.map.insert(src_id, src);
        id
    }

    /// Creates a user process running `path` with the given arguments and
    /// environment: the next id, its stack laid out from the top of the
    /// user stack area, and descriptors 0, 1 and 2 on the terminal (read,
    /// write, and a duplicate of the write side).
    pub fn new_user_task(&mut self, store: &mut FileStore, path: &[u8], args: Vec<Vec<u8>>, envs: Vec<Vec<u8>>) -> (id: usize)
        requires
            old(self).wf(),
            stack_fits(args@, envs@, 0, (USR_STK_OFF + USR_STK_SZ) as usize),
        ensures
            final(self).wf(),
            id == old(self).seq,
            final(self).seq == vstd::wrapping::usize_specs::wrapping_add(old(self).seq, 1),
            final(self).root == old(self).root,
            final(self).tasks().dom() == old(self).tasks().dom().insert(id),
            forall|k: usize| k != id ==> #[trigger] final(self).tasks()[k] == old(self).tasks()[k],
            ({
                let t = final(self).tasks()[id];
                let d = old(store).datas@.len();
                let e = old(store).descs@.len();
                &&& t.info.id == id
                &&& t.info.tag@ == path@
                &&& t.info.status is None
                &&& t.exec_path@ == path@
                &&& t.pid.0 == id
                &&& t.threads@ == seq![id]
                &&& t.parent is None
                &&& t.thd_ctx matches Some(c) && c.uctx.r@ == Seq::new(16, |i: int| 0u64).update(
                    15,
                    initial_sp(args@, envs@, 0, (USR_STK_OFF + USR_STK_SZ) as usize) as u64,
                )
                &&& t.files.wf()
                &&& t.files.view_map().dom() == set![0usize, 1usize, 2usize]
                &&& t.files.view_map()[0] matches FLike::File(h) && h.data == d && h.desc == e && h.path@ == tty_path() && !h.cloexec
                &&& t.files.view_map()[1] matches FLike::File(h) && h.data == d + 1 && h.desc == e + 1 && h.path@ == tty_path() && !h.cloexec
                &&& t.files.view_map()[2] matches FLike::File(h) && h.data == d + 1 && h.desc == e + 1 && h.path@ == tty_path() && !h.cloexec
            }),
            final(store).datas@.len() == old(store).datas@.len() + 2,
            forall|i: int| 0 <= i < old(store).datas@.len() ==> #[trigger] final(store).datas@[i] == old(store).datas@[i],
            final(store).data(old(store).datas@.len() as usize).len() == 0,
            final(store).data((old(store).datas@.len() + 1) as usize).len() == 0,
            final(store).descs@ == old(store).descs@.push(FdState { off: 0, opt: FdOpt { rd: true, wr: false, ap: false, nb: false }, flk: 0 }).push(
                FdState { off: 0, opt: FdOpt { rd: false, wr: true, ap: false, nb: false }, flk: 0 },
            ),
            final(store).pipes@ == old(store).pipes@,
            final(store).sets@ == old(store).sets@,
    {
        let id = self.spawn(path);
        let mut t = self.take_task(id);
        t.exec_path = crate::mount::copy_bytes(path);
        let mut ctx = ThdCtx::default();
        let init = ProcInit { args, envs, auxv: std::collections::BTreeMap::new() };
        let sp = init.push_at(USR_STK_OFF + USR_STK_SZ);
        ctx.uctx.set_sp(sp as u64);
        t.thd_ctx = Some(ctx);
        let tty = tty_bytes();
        let fd0 = FHandle::new(store, tty.as_slice(), FdOpt { rd: true, wr: false, ap: false, nb: false }, false, false);
        let fd1 = FHandle::new(store, tty.as_slice(), FdOpt { rd: false, wr: true, ap: false, nb: false }, false, false);
        let fd2 = fd1.dup(false);
        t.files.insert(0, FLike::File(fd0));
        t.files.insert(1, FLike::File(fd1));
        t.files.insert(2, FLike::File(fd2));
        t.threads.push(id);
        proof {
            assert(t.threads@ =~= seq![id]);
            assert(t.files.view_map().dom() =~= set![0usize, 1usize, 2usize]);
        }
        self.register(t, Pid(id));
        id
    }

    pub fn count(&self) -> (r: usize)
        ensures
            r == self.map.entries@.len(),
    {
        self.map.len()
    }

    /// The ids of the tasks still running, in increasing order.
    pub fn active_tasks(&self) -> (r: Vec<usize>)
        requires
            self.wf(),
        ensures
            r@ == ids_where(self.map.entries@, |t: Task| t.info.status is None),
    {
        let mut out: Vec<usize> = Vec::new();
        let mut i: usize = 0;
        while i < self.map.entries.len()
            invariant
                i <= self.map.entries@.len(),
                out@ == ids_where(self.map.entries@.take(i as int), |t: Task| t.info.status is None),
            decreases self.map.entries@.len() - i,
        {
            proof {
                assert(self.map.entries@.take(i + 1).drop_last() =~= self.map.entries@.take(i as int));
            }
            if !self.map.entries[i].1.done() {
                out.push(self.map.entries[i].0);
            }
            i = i + 1;
        }
        assert(self.map.entries@.take(self.map.entries@.len() as int) =~= self.map.entries@);
        out
    }

    /// The ids of the tasks that have a status, in increasing order.
    pub fn zombie_tasks(&self) -> (r: Vec<usize>)
        requires
            self.wf(),
        ensures
            r@ == ids_where(self.map.entries@, |t: Task| t.info.status is Some),
    {
        let mut out: Vec<usize> = Vec::new();
        let mut i: usize = 0;
        while i < self.map.entries.len()
            invariant
                i <= self.map.entries@.len(),
                out@ == ids_where(self.map.entries@.take(i as int), |t: Task| t.info.status is Some),
            decreases self.map.entries@.len() - i,
        {
            proof {
                assert(self.map.entries@.take(i + 1).drop_last() =~= self.map.entries@.take(i as int));
            }
            if self.map.entries[i].1.done() {
                out.push(self.map.entries[i].0);
            }
            i = i + 1;
        }
        assert(self.map.entries@.take(self.map.entries@.len() as int) =~= self.map.entries@);
        out
    }
}

/// `after` is task `before` once it has exited with `code`.
pub open spec fn exited_task(before: Task, after: Task, code: usize) -> bool {
    &&& after.files.wf()
    &&& after.files.entries@.len() == 0
    &&& after.ev.ev == before.ev.ev | EV_PROC_QUIT
    &&& after.exit_code == code
    &&& after.threads@.len() == 0
    &&& after.info.status == Some((code & 0xFF) as i32)
    &&& after.info.id == before.info.id
    &&& after.info.tag@ == before.info.tag@
    &&& after.parent == before.parent
    &&& after.subtasks@ == before.subtasks@
    &&& after.pgid == before.pgid
    &&& after.sig_queue@ == before.sig_queue@
    &&& after.sig_mask == before.sig_mask
}

/// `after` is the task map `before` once task `id` is reaped with `root`
/// as the root.
pub open spec fn reap_post(before: Map<usize, Task>, after: Map<usize, Task>, id: usize, root: Option<usize>) -> bool {
    if !before.contains_key(id) {
        after == before
    } else {
        let kids = before[id].subtasks@;
        &&& after.dom() == before.dom().remove(id)
        &&& forall|k: usize| #[trigger] after.contains_key(k) ==> reaped(before[k], after[k], k, kids, root)
    }
}

/// `after` is `before` with its event bits raised by `bits` and nothing
/// else changed.
pub open spec fn raised(before: Task, after: Task, bits: u32) -> bool {
    after == (Task { ev: EvBus { ev: before.ev.ev | bits }, ..before })
}

/// `after` is the task map `before` once task `id` has exited with
/// `code` and its parent, if it is in the map, has learned of it.
pub open spec fn exit_post(before: Map<usize, Task>, after: Map<usize, Task>, id: usize, code: usize) -> bool {
    let par = before[id].parent;
    &&& after.dom() == before.dom()
    &&& exists|t: Task|
        #[trigger] exited_task(before[id], t, code) && if par is Some && par->0 != id && before.contains_key(par->0) {
            &&& after[id] == t
            &&& raised(before[par->0], after[par->0], EV_CHILD_QUIT)
            &&& forall|k: usize| k != id && k != par->0 ==> #[trigger] after[k] == before[k]
        } else if par == Some(id) {
            &&& raised(t, after[id], EV_CHILD_QUIT)
            &&& forall|k: usize| k != id ==> #[trigger] after[k] == before[k]
        } else {
            &&& after[id] == t
            &&& forall|k: usize| k != id ==> #[trigger] after[k] == before[k]
        }
}

/// `after` is task `k` as it was `before`, once a reaped task's children
/// `kids` have gone to `root`: a child gets the root as parent, and the
/// root gets the children appended.
pub open spec fn reaped(before: Task, after: Task, k: usize, kids: Seq<usize>, root: Option<usize>) -> bool {
    &&& after.parent == if root is Some && kids.contains(k) { root } else { before.parent }
    &&& after.subtasks@ == if root == Some(k) { before.subtasks@ + kids } else { before.subtasks@ }
    &&& after.info.id == before.info.id
    &&& after.info.tag@ == before.info.tag@
    &&& after.info.status == before.info.status
    &&& after.files.entries@ == before.files.entries@
    &&& after.pgid == before.pgid
    &&& after.threads@ == before.threads@
    &&& after.ev.ev == before.ev.ev
    &&& after.sig_queue@ == before.sig_queue@
    &&& after.sig_mask == before.sig_mask
}

/// `after` is `before` with `nid` recorded twice more as a child.
pub open spec fn forked_parent(before: Task, after: Task, nid: usize) -> bool {
    &&& after.subtasks@ == before.subtasks@.push(nid).push(nid)
    &&& after.info.id == before.info.id
    &&& after.info.tag@ == before.info.tag@
    &&& after.info.status == before.info.status
    &&& after.parent == before.parent
    &&& after.files.entries@ == before.files.entries@
    &&& after.cwd@ == before.cwd@
    &&& after.exec_path@ == before.exec_path@
    &&& after.pid.0 == before.pid.0
    &&& after.pgid == before.pgid
    &&& after.threads@ == before.threads@
    &&& after.ev.ev == before.ev.ev
    &&& after.exit_code == before.exit_code
    &&& after.sig_queue@ == before.sig_queue@
    &&& after.sig_mask == before.sig_mask
}

/// `child` is what forking `parent` (id `pid`) under `nid` makes.
pub open spec fn forked_child(parent: Task, child: Task, pid: usize, nid: usize) -> bool {
    &&& child.info.id == nid
    &&& child.info.tag@ == parent.info.tag@
    &&& child.info.status is None
    &&& child.parent == Some(pid)
    &&& child.subtasks@.len() == 0
    &&& child.files.wf()
    &&& dup_table(parent.files.view_map(), child.files.view_map())
    &&& child.cwd@ == parent.cwd@
    &&& child.exec_path@ == parent.exec_path@
    &&& child.sem_ctx.arrays@ == parent.sem_ctx.arrays@
    &&& child.sem_ctx.undos@.len() == 0
    &&& child.shm_ctx.ids@ == parent.shm_ctx.ids@
    &&& child.pid.0 == nid
    &&& child.pgid == parent.pgid
    &&& child.threads@ == seq![nid]
    &&& child.ev.ev == 0
    &&& child.exit_code == 0
    &&& child.sig_queue@.len() == 0
    &&& child.sig_mask == parent.sig_mask
}

/// Key `k` is in `s` with a task that satisfies `p`.
pub open spec fn key_with(s: Seq<(usize, Task)>, k: usize, p: spec_fn(Task) -> bool) -> bool {
    exists|i: int| #[trigger] fd_at(s, k, i) && p(s[i].1)
}

/// An id that `ids_where` picks names a task of the map that satisfies `p`.
pub proof fn lemma_ids_where_in(s: Seq<(usize, Task)>, p: spec_fn(Task) -> bool, q: int)
    requires
        fds_increasing(s),
        0 <= q < ids_where(s, p).len(),
    ensures
        crate::fdtable::as_map(s).contains_key(ids_where(s, p)[q]),
        p(crate::fdtable::as_map(s)[ids_where(s, p)[q]]),
{
    lemma_ids_where_members(s, p);
    let k = ids_where(s, p)[q];
    assert(key_with(s, k, p));
    let i = choose|i: int| #[trigger] fd_at(s, k, i) && p(s[i].1);
    let j = choose|j: int| fd_at(s, k, j);
    crate::fdtable::lemma_fd_at_unique(s, k, i, j);
}

/// The ids `ids_where` picks are the keys of `s` whose task satisfies
/// `p`, each once.
pub proof fn lemma_ids_where_members(s: Seq<(usize, Task)>, p: spec_fn(Task) -> bool)
    requires
        fds_increasing(s),
    ensures
        ids_where(s, p).no_duplicates(),
        forall|q: int| 0 <= q < ids_where(s, p).len() ==> #[trigger] key_with(s, ids_where(s, p)[q], p),
        forall|i: int| 0 <= i < s.len() && p(s[i].1) ==> ids_where(s, p).contains(#[trigger] s[i].0),
        forall|q: int| 0 <= q < ids_where(s, p).len() ==> (#[trigger] ids_where(s, p)[q]) <= (if s.len() > 0 { s.last().0 } else { 0 }),
    decreases s.len(),
{
    if s.len() > 0 {
        let d = s.drop_last();
        assert(fds_increasing(d)) by {
            assert forall|i: int, j: int| 0 <= i < j < d.len() implies (#[trigger] d[i]).0 < (#[trigger] d[j]).0 by {
                assert(d[i] == s[i]);
                assert(d[j] == s[j]);
            }
        }
        lemma_ids_where_members(d, p);
        let w = ids_where(d, p);
        if d.len() > 0 {
            assert(d.last().0 < s.last().0) by {
                assert(d.last() == s[s.len() - 2]);
            }
        }
        assert forall|q: int| 0 <= q < ids_where(s, p).len() implies #[trigger] key_with(s, ids_where(s, p)[q], p) by {
            if q < w.len() {
                assert(ids_where(s, p)[q] == w[q]);
                assert(key_with(d, w[q], p));
                let i = choose|i: int| #[trigger] fd_at(d, w[q], i) && p(d[i].1);
                assert(fd_at(s, ids_where(s, p)[q], i));
            } else {
                assert(p(s.last().1));
                assert(ids_where(s, p)[q] == s.last().0);
                assert(fd_at(s, ids_where(s, p)[q], s.len() - 1));
                assert(s[s.len() - 1] == s.last());
            }
        }
        assert forall|q: int| 0 <= q < ids_where(s, p).len() implies (#[trigger] ids_where(s, p)[q]) <= s.last().0 by {
            if q < w.len() {
                assert(ids_where(s, p)[q] == w[q]);
                if d.len() > 0 {
                    assert(w[q] <= d.last().0);
                } else {
                    assert(w.len() == 0);
                }
            }
        }
        if p(s.last().1) {
            assert forall|a: int, b: int| 0 <= a < b < ids_where(s, p).len() implies ids_where(s, p)[a] != ids_where(s, p)[b] by {
                if b == w.len() {
                    assert(ids_where(s, p)[a] == w[a]);
                    if d.len() > 0 {
                        assert(w[a] <= d.last().0);
                    }
                }
            }
        }
        assert forall|i: int| 0 <= i < s.len() && p(s[i].1) implies ids_where(s, p).contains(#[trigger] s[i].0) by {
            if i < s.len() - 1 {
                assert(d[i] == s[i]);
                assert(w.contains(d[i].0));
                let q = choose|q: int| 0 <= q < w.len() && w[q] == d[i].0;
                if p(s.last().1) {
                    assert(ids_where(s, p)[q] == w[q]);
                }
            } else {
                assert(s[i] == s.last());
                assert(ids_where(s, p).last() == s.last().0);
            }
        }
        } else {
        assert(ids_where(s, p).len() == 0);
    }
}

/// The terminal's path, `/dev/tty`.
pub open spec fn tty_path() -> Seq<u8> {
    seq![0x2fu8, 0x64, 0x65, 0x76, 0x2f, 0x74, 0x74, 0x79]
}

fn tty_bytes() -> (r: Vec<u8>)
    ensures
        r@ == tty_path(),
{
    let mut v: Vec<u8> = Vec::new();
    v.push(0x2fu8);
    v.push(0x64);
    v.push(0x65);
    v.push(0x76);
    v.push(0x2f);
    v.push(0x74);
    v.push(0x74);
    v.push(0x79);
    assert(v@ =~= tty_path());
    v
}

/// `i` is the first task of `s` that has thread `tid`.
pub open spec fn first_with_thread(s: Seq<(usize, Task)>, tid: usize, i: int) -> bool {
    &&& 0 <= i < s.len()
    &&& s[i].1.threads@.contains(tid)
    &&& forall|j: int| 0 <= j < i ==> !(#[trigger] s[j]).1.threads@.contains(tid)
}

/// The ids of the tasks of `s` that satisfy `p`, in order.
pub open spec fn ids_where(s: Seq<(usize, Task)>, p: spec_fn(Task) -> bool) -> Seq<usize>
    decreases s.len(),
{
    if s.len() == 0 {
        Seq::empty()
    } else {
        let w = ids_where(s.drop_last(), p);
        if p(s.last().1) { w.push(s.last().0) } else { w }
    }
}

/// `t` is what `Task::make(id, tag)` builds.
pub open spec fn fresh_task(t: Task, id: usize, tag: Seq<u8>) -> bool {
    &&& t.info.id == id
    &&& t.info.tag@ == tag
    &&& t.info.status is None
    &&& t.parent is None
    &&& t.subtasks@.len() == 0
    &&& t.files.wf()
    &&& t.files.entries@.len() == 0
    &&& t.cwd@ == seq![0x2fu8]
    &&& t.exec_path@.len() == 0
    &&& t.pid.0 == 0
    &&& t.pgid == 0
    &&& t.threads@.len() == 0
    &&& t.ev.ev == 0
    &&& t.exit_code == 0
    &&& t.sig_queue@.len() == 0
    &&& t.sig_mask == 0
}

} // verus!
