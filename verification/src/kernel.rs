//! The kernel object: the task table, caches, frames, mounts, IPC stores,
//! the terminal buffer, the disk, the open-file store, the clocks and the
//! big lock, with the operations that tie them together.
use vstd::prelude::*;
use std::collections::VecDeque;
use crate::blockcache::{BlockCache, cleaned};
use crate::clock::{Clocks, dtk};
use crate::consts::{MEM_OFF, PAGE_SIZE};
use crate::disk::Disk;
use crate::fdtable::IdMap;
use crate::file::FileStore;
use crate::frame::{FramePool, count_free};
use crate::ipc::{SemArr, shm_get_or_create};
use crate::mount::{MountTable, resolve_spec};
use crate::pagecache::wrap_inc;
use crate::sync::KernLock;
use crate::sysno::{MAX_CPU, N_CHAINS};
use crate::balance::{compute_load_balance, cpu_score};
use crate::fdtable::fd_keys;
use crate::file::{FLike, PipeNode};
use crate::procinit::{ProcInit, initial_sp, stack_fits};
use crate::task::{Task, TaskTable, ThdCtx, forked_child, forked_parent, ids_where, reap_post};
use crate::consts::{USR_STK_OFF, USR_STK_SZ};
use crate::tty::ser;

verus! {

pub struct Kernel {
    pub tasks: TaskTable,
    pub cache: BlockCache,
    pub pool: FramePool,
    pub cpus: Vec<Option<usize>>,
    pub mnt: MountTable,
    pub sem_store: IdMap<SemArr>,
    pub shm_store: IdMap<Vec<usize>>,
    pub tty_buf: VecDeque<u8>,
    pub disk: Disk,
    pub store: FileStore,
    pub clocks: Clocks,
    pub gkl: KernLock,
}

/// The pages that `alloc_pages` takes: how many of `count` it can have.
pub open spec fn pages_taken(s: Seq<bool>, count: usize) -> nat {
    if count_free(s) < count { count_free(s) } else { count as nat }
}

/// The address of frame slot `i`.
pub open spec fn slot_addr(i: int) -> int {
    i * PAGE_SIZE + MEM_OFF
}

/// Whether some page of `pages` lies in frame slot `i`.
pub open spec fn hits_slot(pages: Seq<usize>, i: int) -> bool
    decreases pages.len(),
{
    if pages.len() == 0 {
        false
    } else {
        hits_slot(pages.drop_last(), i) || (pages.last() - MEM_OFF) / PAGE_SIZE as int == i
    }
}

/// Every page address lies at or above the frame area.
pub open spec fn pages_in_area(pages: Seq<usize>) -> bool {
    forall|j: int| 0 <= j < pages.len() ==> #[trigger] pages[j] >= MEM_OFF
}

proof fn lemma_count_free_step(s: Seq<bool>, i: int)
    requires
        0 <= i < s.len(),
    ensures
        count_free(s.take(i + 1)) == count_free(s.take(i)) + if s[i] { 1nat } else { 0nat },
{
    assert(s.take(i + 1).drop_last() =~= s.take(i));
}

proof fn lemma_count_free_le(s: Seq<bool>)
    ensures
        count_free(s) <= s.len(),
    decreases s.len(),
{
    if s.len() > 0 {
        lemma_count_free_le(s.drop_last());
    }
}

proof fn lemma_count_free_mono(s: Seq<bool>, i: int, j: int)
    requires
        0 <= i <= j <= s.len(),
    ensures
        count_free(s.take(i)) <= count_free(s.take(j)),
    decreases j - i,
{
    if i < j {
        lemma_count_free_mono(s, i, j - 1);
        lemma_count_free_step(s, j - 1);
    }
}

impl Kernel {
    pub open spec fn wf(&self) -> bool {
        &&& self.tasks.wf()
        &&& self.cache.wf()
        &&& self.cache.width > 0
        &&& self.cpus@.len() == MAX_CPU
        &&& self.sem_store.wf()
        &&& self.shm_store.wf()
    }

    pub fn new(nf: usize) -> (r: Self)
        ensures
            r.wf(),
            r.tasks.tasks() == Map::<usize, crate::task::Task>::empty(),
            r.tasks.seq == 1,
            r.cache.width == N_CHAINS,
            r.pool.slots@ == Seq::new(nf as nat, |i: int| true),
            r.pool.cap == nf,
            r.cpus@ == Seq::new(MAX_CPU as nat, |i: int| None::<usize>),
            r.mnt.view_entries().len() == 0,
            r.sem_store.entries@.len() == 0,
            r.shm_store.entries@.len() == 0,
            r.tty_buf@.len() == 0,
            r.disk.errs == 0 && r.disk.ops == 0 && r.disk.journal is None,
            r.clocks.clk == 0 && r.clocks.clk_all == 0,
            !r.gkl.flag,
    {
        let mut cpus: Vec<Option<usize>> = Vec::new();
        let mut i: usize = 0;
        while i < MAX_CPU
            invariant
                i <= MAX_CPU,
                cpus@ == Seq::new(i as nat, |k: int| None::<usize>),
            decreases MAX_CPU - i,
        {
            cpus.push(None);
            i = i + 1;
            assert(cpus@ =~= Seq::new(i as nat, |k: int| None::<usize>));
        }
        let label: [u8; 9] = [0x6d, 0x61, 0x69, 0x6e, 0x20, 0x64, 0x69, 0x73, 0x6b];
        Kernel {
            tasks: TaskTable::new(),
            cache: BlockCache::new(N_CHAINS),
            pool: FramePool::new(nf),
            cpus,
            mnt: MountTable::new(),
            sem_store: IdMap::new(),
            shm_store: IdMap::new(),
            tty_buf: VecDeque::new(),
            disk: Disk::new(&label),
            store: FileStore::new(),
            clocks: Clocks::new(),
            gkl: KernLock::new(),
        }
    }

    /// A timer tick on CPU `id`: under the big lock, every cached block is
    /// marked clean.
    pub fn tick(&mut self, id: usize)
        requires
            old(self).wf(),
            old(self).gkl.can_enter(id),
        ensures
            final(self).wf(),
            final(self).gkl == old(self).gkl.enter_spec(id).leave_spec(),
            final(self).cache.width == old(self).cache.width,
            final(self).cache.view_chains() == Seq::new(
                old(self).cache.view_chains().len(),
                |c: int| cleaned(old(self).cache.view_chains()[c]),
            ),
            final(self).tasks == old(self).tasks,
            final(self).pool == old(self).pool,
            final(self).cpus == old(self).cpus,
            final(self).clocks == old(self).clocks,
    {
        self.gkl.enter(id);
        self.cache.clean_all();
        self.gkl.leave();
    }

    /// The task running on `cpu`, if any.
    pub fn cur_task(&self, cpu: usize) -> (r: Option<usize>)
        ensures
            r == if cpu < self.cpus@.len() { self.cpus@[cpu as int] } else { None },
    {
        if cpu >= self.cpus.len() {
            return None;
        }
        self.cpus[cpu]
    }

    /// Puts `t` on `cpu` (or clears it).
    pub fn set_cur(&mut self, cpu: usize, t: Option<usize>)
        requires
            old(self).wf(),
        ensures
            final(self).wf(),
            final(self).cpus@ == if cpu < old(self).cpus@.len() { old(self).cpus@.update(cpu as int, t) } else { old(self).cpus@ },
            final(self).tasks == old(self).tasks,
    {
        if cpu < self.cpus.len() {
            self.cpus.set(cpu, t);
        }
    }

    /// A page fault is handled when a task runs on the boot CPU.
    pub fn handle_pgfault(&self, addr: usize) -> (r: bool)
        ensures
            r == (self.cpus@.len() > 0 && self.cpus@[0] is Some),
    {
        self.cur_task(0).is_some()
    }

    pub fn handle_pgfault_ext(&self, addr: usize, access: u8) -> (r: bool)
        ensures
            r == (self.cpus@.len() > 0 && self.cpus@[0] is Some),
    {
        if access & 0x2 != 0 {
            return self.handle_pgfault(addr);
        }
        self.handle_pgfault(addr)
    }

    /// Creates the root task and gives it its first thread.
    pub fn proc_init(&mut self) -> (rid: usize)
        requires
            old(self).wf(),
        ensures
            final(self).wf(),
            rid == old(self).tasks.seq,
            final(self).tasks.root == Some(rid),
            final(self).tasks.tasks().dom() == old(self).tasks.tasks().dom().insert(rid),
            forall|k: usize| k != rid ==> #[trigger] final(self).tasks.tasks()[k] == old(self).tasks.tasks()[k],
            final(self).tasks.tasks()[rid].threads@ == seq![rid],
            final(self).tasks.tasks()[rid].info.id == rid,
            final(self).tasks.tasks()[rid].parent is None,
            final(self).tasks.tasks()[rid].files.entries@.len() == 0,
    {
        let rid = self.tasks.spawn_root();
        let ghost m1 = self.tasks.tasks();
        assert(self.tasks.map.view_map().dom().contains(rid));
        match self.tasks.map.remove(rid) {
            Some(mut t) => {
                t.threads.push(rid);
                let _ = self.tasks.map.insert(rid, t);
                proof {
                    assert(self.tasks.tasks().dom() =~= m1.dom());
                    assert(self.tasks.tasks()[rid].threads@ =~= seq![rid]);
                }
            },
            None => {
                assert(false);
            },
        }
        rid
    }

    /// A byte typed on the terminal; a full buffer of 4096 drops it.
    pub fn tty_push(&mut self, c: u8)
        ensures
            final(self).tty_buf@ == if old(self).tty_buf@.len() < 4096 {
                old(self).tty_buf@.push(if c == 13 { 10u8 } else { c })
            } else {
                old(self).tty_buf@
            },
            final(self).tasks == old(self).tasks,
    {
        let byte = ser(c);
        if self.tty_buf.len() < 4096 {
            self.tty_buf.push_back(byte);
        }
    }

    /// The oldest byte typed, if any.
    pub fn tty_pop(&mut self) -> (r: Option<u8>)
        ensures
            old(self).tty_buf@.len() == 0 ==> r is None && final(self).tty_buf@ == old(self).tty_buf@,
            old(self).tty_buf@.len() > 0 ==> r == Some(old(self).tty_buf@[0])
                && final(self).tty_buf@ == old(self).tty_buf@.drop_first(),
            final(self).tasks == old(self).tasks,
    {
        let r = self.tty_buf.pop_front();
        proof {
            if old(self).tty_buf@.len() > 0 {
                assert(self.tty_buf@ =~= old(self).tty_buf@.drop_first());
            }
        }
        r
    }

    /// The semaphore set under `key` (see `SemArr::get_or_create`).
    pub fn get_sem(&mut self, key: u32, nsems: usize, flags: usize) -> (r: Result<u32, &'static str>)
        requires
            old(self).wf(),
            old(self).sem_store.entries@.len() + 1 < u32::MAX,
        ensures
            final(self).wf(),
            final(self).tasks == old(self).tasks,
            key != 0 && old(self).sem_store.view_map().contains_key(key as usize) ==> {
                &&& r == if crate::ipc::create_excl(flags) { Err::<u32, &'static str>("eexist") } else { Ok::<u32, &'static str>(key) }
                &&& final(self).sem_store.view_map() == old(self).sem_store.view_map()
            },
            key != 0 && !old(self).sem_store.view_map().contains_key(key as usize) ==> r == Ok::<u32, &'static str>(key)
                && crate::ipc::fresh_arr(final(self).sem_store.view_map()[key as usize], key, nsems, flags),
            key == 0 ==> (r matches Ok(k) && crate::ipc::lowest_free_key(old(self).sem_store.view_map(), k as usize)
                && crate::ipc::fresh_arr(final(self).sem_store.view_map()[k as usize], k, nsems, flags)),
    {
        SemArr::get_or_create(key, nsems, flags, &mut self.sem_store)
    }

    /// The shared segment under `key`, created with `npages` slots if new.
    pub fn get_shm(&mut self, key: usize, npages: usize) -> (r: usize)
        requires
            old(self).wf(),
        ensures
            final(self).wf(),
            r == key,
            final(self).shm_store.view_map().contains_key(key),
            !old(self).shm_store.view_map().contains_key(key) ==> final(self).shm_store.view_map()[key]@
                == Seq::new(npages as nat, |i: int| 0usize),
            old(self).shm_store.view_map().contains_key(key) ==> final(self).shm_store.view_map()
                == old(self).shm_store.view_map(),
            final(self).tasks == old(self).tasks,
    {
        shm_get_or_create(key, npages, &mut self.shm_store)
    }

    /// The scheduler's tick on `cpu`: the clocks advance.
    pub fn schedule_tick(&mut self, cpu: usize)
        ensures
            final(self).clocks.clk == if cpu == 0 { wrap_inc(old(self).clocks.clk) } else { old(self).clocks.clk },
            final(self).clocks.clk_all == wrap_inc(old(self).clocks.clk_all),
            final(self).tasks == old(self).tasks,
            final(self).cpus == old(self).cpus,
            final(self).pool == old(self).pool,
    {
        dtk(&mut self.clocks, cpu);
    }

    /// The cached blocks and how many of them are dirty.
    pub fn cache_stats(&self) -> (r: (usize, usize))
        requires
            crate::blockcache::total_slots(self.cache.view_chains()) <= usize::MAX,
            crate::blockcache::total_dirty(self.cache.view_chains()) <= usize::MAX,
        ensures
            r == (
                crate::blockcache::total_slots(self.cache.view_chains()) as usize,
                crate::blockcache::total_dirty(self.cache.view_chains()) as usize,
            ),
    {
        (self.cache.total_entries(), self.cache.dirty_count())
    }

    /// The share of the frame pool in use, in percent; 100 for an empty pool.
    pub fn memory_pressure(&self) -> (r: usize)
        requires
            count_free(self.pool.slots@) <= self.pool.cap,
            (self.pool.cap - count_free(self.pool.slots@)) * 100 <= usize::MAX,
        ensures
            self.pool.cap == 0 ==> r == 100,
            self.pool.cap != 0 ==> r == (self.pool.cap - count_free(self.pool.slots@)) * 100 / (self.pool.cap as int),
    {
        let total = self.pool.cap;
        let free = self.pool.free_count();
        if total == 0 {
            return 100;
        }
        let used = total - free;
        (used * 100) / total
    }

    /// Takes up to `count` free frames, lowest first, and returns their
    /// addresses.
    pub fn alloc_pages(&mut self, count: usize) -> (r: Vec<usize>)
        requires
            old(self).pool.slots@.len() * PAGE_SIZE + MEM_OFF <= usize::MAX,
        ensures
            r@.len() == pages_taken(old(self).pool.slots@, count),
            forall|i: int| 0 <= i < old(self).pool.slots@.len() && old(self).pool.slots@[i]
                && count_free(old(self).pool.slots@.take(i)) < r@.len()
                ==> r@[count_free(old(self).pool.slots@.take(i)) as int] == slot_addr(i),
            final(self).pool.slots@ == Seq::new(old(self).pool.slots@.len(), |i: int|
                old(self).pool.slots@[i] && count_free(old(self).pool.slots@.take(i)) >= r@.len()),
            final(self).pool.cap == old(self).pool.cap,
            final(self).tasks == old(self).tasks,
    {
        let ghost s = self.pool.slots@;
        let free_before = self.pool.free_count();
        if free_before < count {
            let _ = crate::kmem::defragment_frame_pool(&mut self.pool.slots);
        }
        let mut pages: Vec<usize> = Vec::new();
        let n = self.pool.slots.len();
        let mut i: usize = 0;
        while i < n && pages.len() < count
            invariant
                n == s.len(),
                i <= n,
                s.len() * PAGE_SIZE + MEM_OFF <= usize::MAX,
                self.pool.slots@.len() == n,
                self.pool.cap == old(self).pool.cap,
                self.tasks == old(self).tasks,
                pages@.len() == count_free(s.take(i as int)),
                pages@.len() <= count,
                free_before == count_free(s),
                forall|j: int| 0 <= j < i && s[j] ==> pages@[count_free(s.take(j)) as int] == slot_addr(j),
                forall|j: int| 0 <= j < i ==> self.pool.slots@[j] == false,
                forall|j: int| i <= j < n ==> self.pool.slots@[j] == s[j],
            decreases n - i,
        {
            proof {
                lemma_count_free_step(s, i as int);
            }
            if self.pool.slots[i] {
                self.pool.slots.set(i, false);
                assert(i * PAGE_SIZE + MEM_OFF <= usize::MAX) by (nonlinear_arith)
                    requires
                        i < n,
                        n * PAGE_SIZE + MEM_OFF <= usize::MAX;
                let ghost before = pages@;
                pages.push(i * PAGE_SIZE + MEM_OFF);
                proof {
                    assert forall|j: int| 0 <= j < i + 1 && s[j] implies pages@[count_free(s.take(j)) as int] == slot_addr(j) by {
                        if j < i {
                            lemma_count_free_step(s, j);
                            lemma_count_free_mono(s, j + 1, i as int);
                            assert(pages@[count_free(s.take(j)) as int] == before[count_free(s.take(j)) as int]);
                        }
                    }
                }
            }
            i = i + 1;
        }
        proof {
            assert(s.take(n as int) =~= s);
            lemma_count_free_mono(s, i as int, n as int);
            assert forall|j: int| 0 <= j < s.len() && s[j] && count_free(s.take(j)) < pages@.len()
                implies pages@[count_free(s.take(j)) as int] == slot_addr(j) by {
                if j >= i {
                    lemma_count_free_mono(s, i as int, j);
                }
            }
            let goal = Seq::new(s.len(), |k: int| s[k] && count_free(s.take(k)) >= pages@.len());
            assert forall|j: int| 0 <= j < s.len() implies #[trigger] self.pool.slots@[j] == goal[j] by {
                if j < i {
                    if s[j] {
                        lemma_count_free_mono(s, j + 1, i as int);
                        lemma_count_free_step(s, j);
                    }
                } else {
                    lemma_count_free_mono(s, i as int, j);
                }
            }
            assert(self.pool.slots@ =~= goal);
        }
        pages
    }

    /// Gives frames back by address; one outside the pool is ignored.
    pub fn free_pages(&mut self, pages: &[usize])
        requires
            pages_in_area(pages@),
        ensures
            final(self).pool.slots@ == Seq::new(old(self).pool.slots@.len(), |i: int|
                old(self).pool.slots@[i] || hits_slot(pages@, i)),
            final(self).pool.cap == old(self).pool.cap,
            final(self).tasks == old(self).tasks,
    {
        let ghost s = self.pool.slots@;
        let mut k: usize = 0;
        while k < pages.len()
            invariant
                k <= pages@.len(),
                pages_in_area(pages@),
                self.pool.slots@ == Seq::new(s.len(), |i: int| s[i] || hits_slot(pages@.take(k as int), i)),
                self.pool.cap == old(self).pool.cap,
                self.tasks == old(self).tasks,
                s == old(self).pool.slots@,
            decreases pages@.len() - k,
        {
            let pa = pages[k];
            assert(pa >= MEM_OFF);
            let idx = (pa - MEM_OFF) / PAGE_SIZE;
            proof {
                assert(pages@.take(k as int + 1).drop_last() =~= pages@.take(k as int));
            }
            if idx < self.pool.slots.len() {
                self.pool.slots.set(idx, true);
            }
            k = k + 1;
            assert(self.pool.slots@ =~= Seq::new(s.len(), |i: int| s[i] || hits_slot(pages@.take(k as int), i)));
        }
        assert(pages@.take(pages@.len() as int) =~= pages@);
    }

    /// Where `path` leads through the mounts; an empty path is refused.
    pub fn lookup_path(&self, path: &[u8]) -> (r: Result<Vec<u8>, &'static str>)
        ensures
            path@.len() == 0 ==> r == Err::<Vec<u8>, &'static str>("enoent"),
            path@.len() > 0 ==> (r matches Ok(v) && v@ == resolve_spec(self.mnt.view_entries(), path@)),
    {
        if path.len() == 0 {
            return Err("enoent");
        }
        self.mnt.resolve(path)
    }
}


/// Each step of `ms` reaps the matching id of `ids` from the step before.
pub open spec fn reap_chain(ms: Seq<Map<usize, Task>>, ids: Seq<usize>, root: Option<usize>) -> bool {
    &&& ms.len() == ids.len() + 1
    &&& forall|i: int| 0 <= i < ids.len() ==> #[trigger] reap_post(ms[i], ms[i + 1], ids[i], root)
}

/// The task counts, priorities and blocked flags that the balancer reads
/// off the CPUs: for a busy CPU its task's children plus one, its process
/// group, and whether it has exited.
pub open spec fn cpu_counts(cpus: Seq<Option<usize>>, m: Map<usize, Task>) -> Seq<usize> {
    Seq::new(cpus.len(), |i: int| match cpus[i] {
        Some(t) => (m[t].subtasks@.len() + 1) as usize,
        None => 0usize,
    })
}

pub open spec fn cpu_prios(cpus: Seq<Option<usize>>, m: Map<usize, Task>) -> Seq<i32> {
    Seq::new(cpus.len(), |i: int| match cpus[i] {
        Some(t) => m[t].pgid,
        None => 0i32,
    })
}

pub open spec fn cpu_blocked(cpus: Seq<Option<usize>>, m: Map<usize, Task>) -> Seq<bool> {
    Seq::new(cpus.len(), |i: int| match cpus[i] {
        Some(t) => m[t].info.status is Some,
        None => false,
    })
}

/// Every busy CPU runs a task of the table.
pub open spec fn cpus_known(cpus: Seq<Option<usize>>, m: Map<usize, Task>) -> bool {
    forall|i: int| 0 <= i < cpus.len() && #[trigger] cpus[i] is Some ==> m.contains_key(cpus[i]->0)
}

/// A file handle that is dropped on exec.
pub open spec fn drops_on_exec(fl: FLike) -> bool {
    match fl {
        FLike::File(fh) => fh.cloexec,
        _ => false,
    }
}

/// Child `c` of `parent` is what a wait for `target` looks for: any child
/// (-1), one of the parent's group (0), the child with that id, or one of
/// the group `-target`.
pub open spec fn wait_matches(c: usize, child: Task, parent: Task, target: isize) -> bool {
    if target == -1 {
        true
    } else if target == 0 {
        child.pgid == parent.pgid
    } else if target > 0 {
        c == target as usize
    } else {
        child.pgid == (-target) as i32
    }
}

/// The first child in `kids` that matches `target` and has exited.
pub open spec fn first_waitable(kids: Seq<usize>, m: Map<usize, Task>, parent: Task, target: isize) -> Option<usize>
    decreases kids.len(),
{
    if kids.len() == 0 {
        None
    } else if wait_matches(kids[0], m[kids[0]], parent, target) && m[kids[0]].info.status is Some {
        Some(kids[0])
    } else {
        first_waitable(kids.drop_first(), m, parent, target)
    }
}

impl Kernel {
    /// Picks the CPU to place new work on, from what each CPU runs.
    pub fn balance_load(&self) -> (r: usize)
        requires
            self.wf(),
            cpus_known(self.cpus@, self.tasks.tasks()),
            forall|t: usize| #[trigger] self.tasks.tasks().contains_key(t) ==> self.tasks.tasks()[t].subtasks@.len() < 0x1000_0000,
        ensures
            r < MAX_CPU,
            forall|j: int| 0 <= j < MAX_CPU ==> cpu_score(
                cpu_counts(self.cpus@, self.tasks.tasks()),
                cpu_prios(self.cpus@, self.tasks.tasks()),
                cpu_blocked(self.cpus@, self.tasks.tasks()),
                j,
            ) <= cpu_score(
                cpu_counts(self.cpus@, self.tasks.tasks()),
                cpu_prios(self.cpus@, self.tasks.tasks()),
                cpu_blocked(self.cpus@, self.tasks.tasks()),
                r as int,
            ),
            forall|j: int| 0 <= j < r ==> cpu_score(
                cpu_counts(self.cpus@, self.tasks.tasks()),
                cpu_prios(self.cpus@, self.tasks.tasks()),
                cpu_blocked(self.cpus@, self.tasks.tasks()),
                j,
            ) < cpu_score(
                cpu_counts(self.cpus@, self.tasks.tasks()),
                cpu_prios(self.cpus@, self.tasks.tasks()),
                cpu_blocked(self.cpus@, self.tasks.tasks()),
                r as int,
            ),
    {
        let ghost m = self.tasks.tasks();
        let mut counts: Vec<usize> = Vec::new();
        let mut prios: Vec<i32> = Vec::new();
        let mut blocked: Vec<bool> = Vec::new();
        let mut i: usize = 0;
        while i < self.cpus.len()
            invariant
                self.wf(),
                m == self.tasks.tasks(),
                cpus_known(self.cpus@, m),
                forall|t: usize| #[trigger] m.contains_key(t) ==> m[t].subtasks@.len() < 0x1000_0000,
                i <= self.cpus@.len(),
                counts@ == cpu_counts(self.cpus@, m).take(i as int),
                prios@ == cpu_prios(self.cpus@, m).take(i as int),
                blocked@ == cpu_blocked(self.cpus@, m).take(i as int),
            decreases self.cpus@.len() - i,
        {
            match self.cpus[i] {
                Some(id) => {
                    assert(self.cpus@[i as int] is Some);
                    assert(m.contains_key(id));
                    assert(m[id].subtasks@.len() < 0x1000_0000);
                    match self.tasks.find(id) {
                        Some(t) => {
                            assert(*t == m[id]);
                            let nc = t.n_children();
                            assert(nc < 0x1000_0000);
                            counts.push(nc + 1);
                            prios.push(t.pgid);
                            blocked.push(t.done());
                        },
                        None => {
                            assert(false);
                        },
                    }
                },
                None => {
                    counts.push(0);
                    prios.push(0);
                    blocked.push(false);
                },
            }
            i = i + 1;
            assert(counts@ =~= cpu_counts(self.cpus@, m).take(i as int));
            assert(prios@ =~= cpu_prios(self.cpus@, m).take(i as int));
            assert(blocked@ =~= cpu_blocked(self.cpus@, m).take(i as int));
        }
        proof {
            assert(counts@ =~= cpu_counts(self.cpus@, m));
            assert(prios@ =~= cpu_prios(self.cpus@, m));
            assert(blocked@ =~= cpu_blocked(self.cpus@, m));
            assert forall|j: int| 0 <= j < counts@.len() implies #[trigger] crate::balance::lb_in_range(
                counts@[j],
                crate::balance::lb_prio(prios@, j),
                crate::balance::lb_blocked(blocked@, j),
                j,
                counts@.len() as int,
            ) by {
                let c: usize = counts@[j];
                assert(c <= 0x1000_0000);
                assert((c as i64) >= 0 && (c as i64) <= 0x1000_0000 && (c as i64) as u64 == c as u64) by (bit_vector)
                    requires
                        c <= 0x1000_0000;
            }
        }
        compute_load_balance(counts.as_slice(), prios.as_slice(), blocked.as_slice())
    }

    /// Reaps every task that has exited; returns how many.
    pub fn reclaim_zombies(&mut self) -> (r: usize)
        requires
            old(self).wf(),
        ensures
            final(self).wf(),
            r == ids_where(old(self).tasks.map.entries@, |t: Task| t.info.status is Some).len(),
            ({
                let z = ids_where(old(self).tasks.map.entries@, |t: Task| t.info.status is Some);
                exists|ms: Seq<Map<usize, Task>>| #[trigger] reap_chain(ms, z, old(self).tasks.root)
                    && ms[0] == old(self).tasks.tasks() && ms.last() == final(self).tasks.tasks()
            }),
            final(self).tasks.root == old(self).tasks.root,
            final(self).tasks.seq == old(self).tasks.seq,
            final(self).cpus == old(self).cpus,
    {
        let zombies = self.tasks.zombie_tasks();
        let count = zombies.len();
        let ghost root = self.tasks.root;
        let ghost mut ms: Seq<Map<usize, Task>> = seq![self.tasks.tasks()];
        let mut i: usize = 0;
        while i < zombies.len()
            invariant
                self.wf(),
                i <= zombies@.len(),
                self.tasks.root == root,
                root == old(self).tasks.root,
                self.tasks.seq == old(self).tasks.seq,
                self.cpus == old(self).cpus,
                ms.len() == i + 1,
                ms[0] == old(self).tasks.tasks(),
                ms.last() == self.tasks.tasks(),
                forall|q: int| 0 <= q < i ==> #[trigger] reap_post(ms[q], ms[q + 1], zombies@[q], root),
            decreases zombies@.len() - i,
        {
            self.tasks.reap(zombies[i]);
            proof {
                ms = ms.push(self.tasks.tasks());
            }
            i = i + 1;
        }
        proof {
            assert(reap_chain(ms, zombies@, root));
        }
        count
    }

    /// One slice of a task's thread: its saved context is taken up and put
    /// back (a fresh one if it had none). Answers whether the task has
    /// exited, or `None` when there is no such task.
    pub fn run_slice(&mut self, task_id: usize) -> (r: Option<bool>)
        requires
            old(self).wf(),
        ensures
            final(self).wf(),
            final(self).cpus == old(self).cpus,
            final(self).tasks.seq == old(self).tasks.seq,
            final(self).tasks.root == old(self).tasks.root,
            final(self).tasks.tasks().dom() == old(self).tasks.tasks().dom(),
            !old(self).tasks.tasks().contains_key(task_id) ==> r is None && final(self).tasks == old(self).tasks,
            old(self).tasks.tasks().contains_key(task_id) ==> {
                let t0 = old(self).tasks.tasks()[task_id];
                let t1 = final(self).tasks.tasks()[task_id];
                &&& r == Some(t0.info.status is Some)
                &&& t1 == (crate::task::Task { thd_ctx: t1.thd_ctx, ..t0 })
                &&& t0.thd_ctx is Some ==> t1.thd_ctx == t0.thd_ctx
                &&& t1.thd_ctx is Some
                &&& forall|k: usize| k != task_id ==> #[trigger] final(self).tasks.tasks()[k] == old(self).tasks.tasks()[k]
            },
    {
        if self.tasks.find(task_id).is_none() {
            return None;
        }
        let ghost m0 = self.tasks.tasks();
        match self.tasks.map.remove(task_id) {
            Some(mut t) => {
                let cx = t.begin_run();
                t.end_run(cx);
                let done = t.done();
                let _ = self.tasks.map.insert(task_id, t);
                proof {
                    assert(self.tasks.tasks().dom() =~= m0.dom());
                    assert forall|k: usize| k != task_id implies #[trigger] self.tasks.tasks()[k] == m0[k] by {
                        assert(self.tasks.tasks() == m0.remove(task_id).insert(task_id, t));
                    }
                }
                Some(done)
            },
            None => {
                assert(false);
                None
            },
        }
    }

    /// Forks task `parent_id`: the child gets the next id and shares the
    /// parent's address-space token.
    pub fn do_fork(&mut self, parent_id: usize) -> (r: Result<usize, &'static str>)
        requires
            old(self).wf(),
            old(self).tasks.tasks().contains_key(parent_id) ==> !old(self).tasks.tasks().contains_key(old(self).tasks.seq)
                && old(self).tasks.tasks()[parent_id].files.wf(),
        ensures
            final(self).wf(),
            !old(self).tasks.tasks().contains_key(parent_id) ==> r == Err::<usize, &'static str>("esrch")
                && final(self).tasks == old(self).tasks,
            old(self).tasks.tasks().contains_key(parent_id) ==> {
                let nid = old(self).tasks.seq;
                &&& r == Ok::<usize, &'static str>(nid)
                &&& final(self).tasks.tasks().dom() == old(self).tasks.tasks().dom().insert(nid)
                &&& forall|k: usize| k != nid && k != parent_id ==> #[trigger] final(self).tasks.tasks()[k] == old(self).tasks.tasks()[k]
                &&& forked_parent(old(self).tasks.tasks()[parent_id], final(self).tasks.tasks()[parent_id], nid)
                &&& forked_child(old(self).tasks.tasks()[parent_id], final(self).tasks.tasks()[nid], parent_id, nid)
                &&& final(self).tasks.tasks()[nid].vm_token == old(self).tasks.tasks()[parent_id].vm_token
                &&& final(self).tasks.seq == vstd::wrapping::usize_specs::wrapping_add(old(self).tasks.seq, 1)
            },
            final(self).cpus == old(self).cpus,
    {
        let token = match self.tasks.find(parent_id) {
            Some(p) => p.vm_token,
            None => {
                return Err("esrch");
            },
        };
        let nid = self.tasks.fork_task(parent_id);
        let ghost m1 = self.tasks.tasks();
        assert(self.tasks.map.view_map().dom().contains(nid));
        match self.tasks.map.remove(nid) {
            Some(mut c) => {
                c.vm_token = token;
                let _ = self.tasks.map.insert(nid, c);
                proof {
                    assert(self.tasks.tasks().dom() =~= m1.dom());
                }
            },
            None => {
                assert(false);
            },
        }
        Ok(nid)
    }

    /// Runs `path` in task `task_id`: files marked close-on-exec are
    /// closed, and the task restarts at the program's entry with a stack
    /// holding `args` and `envs`.
    pub fn do_exec(&mut self, task_id: usize, path: &[u8], args: Vec<Vec<u8>>, envs: Vec<Vec<u8>>) -> (r: Result<(), &'static str>)
        requires
            old(self).wf(),
            old(self).tasks.tasks().contains_key(task_id) ==> old(self).tasks.tasks()[task_id].files.wf(),
            stack_fits(args@, envs@, 0, (USR_STK_OFF + USR_STK_SZ) as usize),
        ensures
            final(self).wf(),
            !old(self).tasks.tasks().contains_key(task_id) ==> r == Err::<(), &'static str>("esrch")
                && final(self).tasks == old(self).tasks,
            old(self).tasks.tasks().contains_key(task_id) ==> {
                let t0 = old(self).tasks.tasks()[task_id];
                let t1 = final(self).tasks.tasks()[task_id];
                let sp = initial_sp(args@, envs@, 0, (USR_STK_OFF + USR_STK_SZ) as usize);
                &&& r == Ok::<(), &'static str>(())
                &&& final(self).tasks.tasks().dom() == old(self).tasks.tasks().dom()
                &&& forall|k: usize| k != task_id ==> #[trigger] final(self).tasks.tasks()[k] == old(self).tasks.tasks()[k]
                &&& t1.exec_path@ == path@
                &&& t1.files.wf()
                &&& forall|fd: usize| #[trigger] t1.files.view_map().contains_key(fd) <==> t0.files.view_map().contains_key(fd)
                    && !drops_on_exec(t0.files.view_map()[fd])
                &&& forall|fd: usize| #[trigger] t1.files.view_map().contains_key(fd) ==> t1.files.view_map()[fd] == t0.files.view_map()[fd]
                &&& t1.thd_ctx matches Some(c) && c.uctx.r@ == Seq::new(16, |i: int| 0u64).update(15, sp as u64)
                    && c.uctx.ip == 0x40_0000 && c.uctx.flags == 0 && c.clear_tid == 0 && c.smask == 0
                &&& t1 == (Task { files: t1.files, exec_path: t1.exec_path, thd_ctx: t1.thd_ctx, ..t0 })
            },
            final(self).cpus == old(self).cpus,
    {
        if !self.tasks.map.contains_key(task_id) {
            assert(!old(self).tasks.tasks().dom().contains(task_id));
            return Err("esrch");
        }
        assert(old(self).tasks.tasks().dom().contains(task_id));
        let ghost m0 = self.tasks.tasks();
        let mut t = match self.tasks.map.remove(task_id) {
            Some(t) => t,
            None => {
                return Err("esrch");
            },
        };
        let ghost t0 = t;
        t.exec_path = crate::mount::copy_bytes(path);
        let mut doomed: Vec<usize> = Vec::new();
        let mut i: usize = 0;
        while i < t.files.entries.len()
            invariant
                i <= t.files.entries@.len(),
                t.files.wf(),
                t == (Task { exec_path: t.exec_path, ..t0 }),
                forall|q: int| 0 <= q < doomed@.len() ==> t.files.view_map().contains_key(#[trigger] doomed@[q])
                    && drops_on_exec(t.files.view_map()[doomed@[q]]),
                forall|q: int| 0 <= q < i && drops_on_exec(#[trigger] t.files.entries@[q].1) ==> doomed@.contains(t.files.entries@[q].0),
            decreases t.files.entries@.len() - i,
        {
            let is_doomed = match &t.files.entries[i].1 {
                FLike::File(fh) => fh.cloexec,
                _ => false,
            };
            if is_doomed {
                proof {
                    assert(crate::fdtable::fd_at(t.files.entries@, t.files.entries@[i as int].0, i as int));
                    let j = choose|j: int| crate::fdtable::fd_at(t.files.entries@, t.files.entries@[i as int].0, j);
                    crate::fdtable::lemma_fd_at_unique(t.files.entries@, t.files.entries@[i as int].0, i as int, j);
                }
                let ghost d0 = doomed@;
                doomed.push(t.files.entries[i].0);
                proof {
                    assert forall|q: int| 0 <= q < i + 1 && drops_on_exec(#[trigger] t.files.entries@[q].1) implies doomed@.contains(t.files.entries@[q].0) by {
                        if q < i {
                            let w = choose|w: int| 0 <= w < d0.len() && d0[w] == t.files.entries@[q].0;
                            assert(doomed@[w] == t.files.entries@[q].0);
                        } else {
                            assert(doomed@[d0.len() as int] == t.files.entries@[q].0);
                        }
                    }
                }
            }
            i = i + 1;
        }
        let ghost f0 = t.files.view_map();
        let mut k: usize = 0;
        while k < doomed.len()
            invariant
                k <= doomed@.len(),
                t.files.wf(),
                t == (Task { exec_path: t.exec_path, files: t.files, ..t0 }),
                t.exec_path@ == path@,
                f0 == t0.files.view_map(),
                forall|q: int| 0 <= q < doomed@.len() ==> f0.contains_key(#[trigger] doomed@[q]) && drops_on_exec(f0[doomed@[q]]),
                forall|fd: usize| f0.contains_key(fd) && drops_on_exec(f0[fd]) ==> #[trigger] doomed@.contains(fd),
                forall|fd: usize| #[trigger] t.files.view_map().contains_key(fd) <==> f0.contains_key(fd) && !doomed@.take(k as int).contains(fd),
                forall|fd: usize| #[trigger] t.files.view_map().contains_key(fd) ==> t.files.view_map()[fd] == f0[fd],
            decreases doomed@.len() - k,
        {
            let fd = doomed[k];
            let ghost v0 = t.files.view_map();
            let _ = t.files.remove(fd);
            proof {
                let a = doomed@.take(k as int);
                let b = doomed@.take(k as int + 1);
                assert(b =~= a.push(fd));
                assert forall|x: usize| #[trigger] t.files.view_map().contains_key(x) <==> f0.contains_key(x) && !b.contains(x) by {
                    if b.contains(x) && x != fd {
                        let w = choose|w: int| 0 <= w < b.len() && b[w] == x;
                        assert(a[w] == x);
                    }
                    if a.contains(x) {
                        let w = choose|w: int| 0 <= w < a.len() && a[w] == x;
                        assert(b[w] == x);
                    }
                    if x == fd {
                        assert(b[k as int] == x);
                    }
                }
            }
            k = k + 1;
        }
        proof {
            assert(doomed@.take(doomed@.len() as int) =~= doomed@);
        }
        let init = ProcInit::with_args(args, envs);
        let sp = init.push_at(USR_STK_OFF + USR_STK_SZ);
        let mut ctx = ThdCtx::default();
        ctx.uctx.set_sp(sp as u64);
        ctx.uctx.set_ip(0x0040_0000u64);
        t.thd_ctx = Some(ctx);
        let _ = self.tasks.map.insert(task_id, t);
        proof {
            assert(self.tasks.tasks().dom() =~= m0.dom());
        }
        Ok(())
    }
}


impl Kernel {
    /// Opens a pipe in task `task_id`: the read end on the lowest free
    /// descriptor, the write end on the next.
    pub fn do_pipe(&mut self, task_id: usize) -> (r: Result<(usize, usize), &'static str>)
        requires
            old(self).wf(),
            old(self).tasks.tasks().contains_key(task_id) ==> old(self).tasks.tasks()[task_id].files.wf()
                && old(self).tasks.tasks()[task_id].files.entries@.len() + 2 < usize::MAX,
        ensures
            final(self).wf(),
            !old(self).tasks.tasks().contains_key(task_id) ==> r == Err::<(usize, usize), &'static str>("esrch")
                && final(self).tasks == old(self).tasks && final(self).store == old(self).store,
            old(self).tasks.tasks().contains_key(task_id) ==> (r matches Ok((a, b)) && {
                let f0 = old(self).tasks.tasks()[task_id].files;
                let t1 = final(self).tasks.tasks()[task_id];
                let np = old(self).store.pipes@.len();
                &&& !crate::fdtable::has_fd(f0.entries@, a)
                &&& forall|k: usize| k < a ==> crate::fdtable::has_fd(f0.entries@, k)
                &&& b != a
                &&& !crate::fdtable::has_fd(f0.entries@, b)
                &&& forall|k: usize| k < b && k != a ==> crate::fdtable::has_fd(f0.entries@, k)
                &&& t1.files.view_map() == f0.view_map()
                    .insert(a, FLike::Pipe(PipeNode { data: np as usize, dir: crate::file::PipeDir::Rd }))
                    .insert(b, FLike::Pipe(PipeNode { data: np as usize, dir: crate::file::PipeDir::Wr }))
                &&& t1 == (Task { files: t1.files, ..old(self).tasks.tasks()[task_id] })
                &&& final(self).tasks.tasks().dom() == old(self).tasks.tasks().dom()
                &&& forall|k: usize| k != task_id ==> #[trigger] final(self).tasks.tasks()[k] == old(self).tasks.tasks()[k]
                &&& final(self).store.pipes@.len() == np + 1
                &&& final(self).store.pipe_bytes(np as usize).len() == 0
                &&& final(self).store.pipes@[np as int].ends == 2
                &&& forall|i: int| 0 <= i < np ==> #[trigger] final(self).store.pipes@[i] == old(self).store.pipes@[i]
            }),
            final(self).cpus == old(self).cpus,
    {
        if !self.tasks.map.contains_key(task_id) {
            assert(!old(self).tasks.tasks().dom().contains(task_id));
            return Err("esrch");
        }
        assert(old(self).tasks.tasks().dom().contains(task_id));
        let ghost m0 = self.tasks.tasks();
        let (rd, wr) = PipeNode::pair(&mut self.store);
        let mut t = match self.tasks.map.remove(task_id) {
            Some(t) => t,
            None => {
                return Err("esrch");
            },
        };
        let ghost f0 = t.files;
        let a = t.add_file(FLike::Pipe(rd));
        let ghost f1 = t.files;
        proof {
            assert forall|k: usize| k < a implies crate::fdtable::has_fd(f1.entries@, k) by {
                assert(f1.view_map().dom().contains(k));
            }
            assert(f1.view_map().dom().contains(a));
            assert(f1.entries@.len() == f0.entries@.len() + 1);
        }
        let b = t.add_file(FLike::Pipe(wr));
        proof {
            assert(crate::fdtable::has_fd(f1.entries@, a));
            assert forall|k: usize| k < b && k != a implies crate::fdtable::has_fd(f0.entries@, k) by {
                assert(f1.view_map().dom().contains(k));
                assert(f0.view_map().dom().contains(k));
            }
            assert(!f1.view_map().dom().contains(b));
            assert(b != a);
            assert(!f0.view_map().dom().contains(b));
        }
        let _ = self.tasks.map.insert(task_id, t);
        proof {
            assert(self.tasks.tasks().dom() =~= m0.dom());
        }
        Ok((a, b))
    }

    /// Waits for a child of `parent_id` (see `wait_matches`): the first
    /// that has exited is reaped and its id and exit code returned; with
    /// none, `WNOHANG` (bit 0 of `options`) answers (0, 0).
    pub fn do_wait(&mut self, parent_id: usize, target_pid: isize, options: usize) -> (r: Result<(usize, usize), &'static str>)
        requires
            old(self).wf(),
            target_pid != isize::MIN,
            old(self).tasks.tasks().contains_key(parent_id) ==> forall|i: int|
                0 <= i < old(self).tasks.tasks()[parent_id].subtasks@.len()
                    ==> old(self).tasks.tasks().contains_key(#[trigger] old(self).tasks.tasks()[parent_id].subtasks@[i]),
        ensures
            final(self).wf(),
            !old(self).tasks.tasks().contains_key(parent_id) ==> r == Err::<(usize, usize), &'static str>("esrch")
                && final(self).tasks == old(self).tasks,
            old(self).tasks.tasks().contains_key(parent_id) ==> {
                let m = old(self).tasks.tasks();
                let p = m[parent_id];
                match first_waitable(p.subtasks@, m, p, target_pid) {
                    Some(c) => r == Ok::<(usize, usize), &'static str>((c, m[c].exit_code))
                        && reap_post(m, final(self).tasks.tasks(), c, old(self).tasks.root),
                    None => final(self).tasks == old(self).tasks && r == if p.subtasks@.len() > 0 && options & 1 != 0 {
                        Ok::<(usize, usize), &'static str>((0, 0))
                    } else {
                        Err::<(usize, usize), &'static str>("echild")
                    },
                }
            },
            final(self).cpus == old(self).cpus,
    {
        let ghost m = self.tasks.tasks();
        let (kids, ppg) = match self.tasks.find(parent_id) {
            Some(p) => (crate::kobj::copy_ids_pub(&p.subtasks), p.pgid),
            None => {
                return Err("esrch");
            },
        };
        let ghost p = m[parent_id];
        let wnohang = (options & 1) != 0;
        if kids.len() == 0 {
            return Err("echild");
        }
        let mut found: Option<(usize, usize)> = None;
        let mut i: usize = 0;
        assert(kids@.skip(0) =~= kids@);
        while i < kids.len()
            invariant_except_break
                found is None,
                first_waitable(kids@, m, p, target_pid) == first_waitable(kids@.skip(i as int), m, p, target_pid),
            invariant
                self.wf(),
                m == self.tasks.tasks(),
                m.contains_key(parent_id),
                p == m[parent_id],
                kids@ == p.subtasks@,
                ppg == p.pgid,
                target_pid != isize::MIN,
                i <= kids@.len(),
                forall|q: int| 0 <= q < kids@.len() ==> m.contains_key(#[trigger] kids@[q]),
                self.tasks == old(self).tasks,
            ensures
                match first_waitable(kids@, m, p, target_pid) {
                    Some(c) => found == Some((c, m[c].exit_code)),
                    None => found is None,
                },
            decreases kids@.len() - i,
        {
            let c = kids[i];
            assert(kids@.skip(i as int)[0] == c);
            assert(m.contains_key(c));
            let child = match self.tasks.find(c) {
                Some(t) => t,
                None => {
                    assert(false);
                    break;
                },
            };
            let matches = if target_pid == -1 {
                true
            } else if target_pid == 0 {
                child.pgid == ppg
            } else if target_pid > 0 {
                c == target_pid as usize
            } else {
                let neg: isize = -target_pid;
                child.pgid == neg as i32
            };
            if matches && child.done() {
                found = Some((c, child.exit_code));
                break;
            }
            assert(kids@.skip(i as int).drop_first() =~= kids@.skip(i as int + 1));
            i = i + 1;
        }
        match found {
            Some((id, code)) => {
                self.tasks.reap(id);
                Ok((id, code))
            },
            None => {
                if wnohang {
                    Ok((0, 0))
                } else {
                    Err("echild")
                }
            },
        }
    }
}

} // verus!
