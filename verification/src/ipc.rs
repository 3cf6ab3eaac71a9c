//! System V style semaphores and shared-memory segments.
use vstd::prelude::*;
use crate::fdtable::{IdMap, has_fd, lemma_run_fits};
use crate::task::EvBus;

verus! {

/// The event bits that the kernel's buses carry.
pub struct EvFlag;

impl EvFlag {
    pub const READABLE: u32 = 1;
    pub const WRITABLE: u32 = 2;
    pub const ERROR: u32 = 4;
    pub const CLOSED: u32 = 8;
    pub const PROC_QUIT: u32 = 0x400;
    pub const CHILD_QUIT: u32 = 0x800;
    pub const RECV_SIG: u32 = 0x1000;
    pub const SEM_RM: u32 = 0x10_0000;
    pub const SEM_ACQ: u32 = 0x20_0000;
}

/// A marker held while interrupts are off.
pub struct FlgGuard(pub usize);

impl FlgGuard {
    pub fn enter() -> (r: Self)
        ensures
            r.0 == 0,
    {
        FlgGuard(0)
    }
}

/// A counting semaphore: its count, the last process to operate on it,
/// whether it was removed, and the events it raises.
pub struct Sema {
    pub cnt: isize,
    pub pid: usize,
    pub rm: bool,
    pub bus: EvBus,
}

impl Sema {
    pub fn new(c: isize) -> (r: Self)
        ensures
            r.cnt == c,
            r.pid == 0,
            !r.rm,
            r.bus.ev == 0,
    {
        Sema { cnt: c, pid: 0, rm: false, bus: EvBus::make() }
    }

    /// Marks the semaphore removed and raises the removal event.
    pub fn remove(&mut self)
        ensures
            final(self).rm,
            final(self).bus.ev == old(self).bus.ev | EvFlag::SEM_RM,
            final(self).cnt == old(self).cnt,
            final(self).pid == old(self).pid,
    {
        self.rm = true;
        self.bus.set(EvFlag::SEM_RM);
    }

    /// Gives one unit back; once the count is positive, raises the
    /// acquirable event.
    pub fn release(&mut self)
        requires
            old(self).cnt < isize::MAX,
        ensures
            final(self).cnt == old(self).cnt + 1,
            final(self).bus.ev == if old(self).cnt + 1 >= 1 { old(self).bus.ev | EvFlag::SEM_ACQ } else { old(self).bus.ev },
            final(self).rm == old(self).rm,
            final(self).pid == old(self).pid,
    {
        self.cnt = self.cnt + 1;
        if self.cnt >= 1 {
            self.bus.set(EvFlag::SEM_ACQ);
        }
    }

    /// Takes one unit if there is one: `Ok(true)` when taken, `Ok(false)`
    /// when the count is not positive, an error once removed.
    pub fn try_acquire(&mut self) -> (r: Result<bool, &'static str>)
        ensures
            old(self).rm ==> r == Err::<bool, &'static str>("removed") && *final(self) == *old(self),
            !old(self).rm && old(self).cnt >= 1 ==> {
                &&& r == Ok::<bool, &'static str>(true)
                &&& final(self).cnt == old(self).cnt - 1
                &&& final(self).bus.ev == if old(self).cnt - 1 < 1 { old(self).bus.ev & !EvFlag::SEM_ACQ } else { old(self).bus.ev }
                &&& final(self).rm == old(self).rm
                &&& final(self).pid == old(self).pid
            },
            !old(self).rm && old(self).cnt < 1 ==> r == Ok::<bool, &'static str>(false) && *final(self) == *old(self),
    {
        if self.rm {
            return Err("removed");
        }
        if self.cnt >= 1 {
            self.cnt = self.cnt - 1;
            if self.cnt < 1 {
                self.bus.clear(EvFlag::SEM_ACQ);
            }
            Ok(true)
        } else {
            Ok(false)
        }
    }

    /// Takes one unit, or fails once removed. With no other holder to give
    /// a unit back, this is called only where a unit is free or the
    /// semaphore is gone.
    pub fn acquire_spin(&mut self) -> (r: Result<(), &'static str>)
        requires
            old(self).rm || old(self).cnt >= 1,
        ensures
            old(self).rm ==> r == Err::<(), &'static str>("removed") && *final(self) == *old(self),
            !old(self).rm ==> {
                &&& r == Ok::<(), &'static str>(())
                &&& final(self).cnt == old(self).cnt - 1
                &&& final(self).bus.ev == if old(self).cnt - 1 < 1 { old(self).bus.ev & !EvFlag::SEM_ACQ } else { old(self).bus.ev }
                &&& final(self).rm == old(self).rm
                &&& final(self).pid == old(self).pid
            },
    {
        match self.try_acquire() {
            Ok(_) => Ok(()),
            Err(e) => Err(e),
        }
    }

    pub fn get_val(&self) -> (r: isize)
        ensures
            r == self.cnt,
    {
        self.cnt
    }

    /// How many callbacks wait on the semaphore's bus: this bus keeps none.
    pub fn get_ncnt(&self) -> (r: usize)
        ensures
            r == 0,
    {
        0
    }

    pub fn get_pid(&self) -> (r: usize)
        ensures
            r == self.pid,
    {
        self.pid
    }

    pub fn set_pid(&mut self, p: usize)
        ensures
            final(self).pid == p,
            final(self).cnt == old(self).cnt,
            final(self).rm == old(self).rm,
            final(self).bus == old(self).bus,
    {
        self.pid = p;
    }

    /// Sets the count; a positive count raises the acquirable event.
    pub fn set_val(&mut self, v: isize)
        ensures
            final(self).cnt == v,
            final(self).bus.ev == if v >= 1 { old(self).bus.ev | EvFlag::SEM_ACQ } else { old(self).bus.ev },
            final(self).rm == old(self).rm,
            final(self).pid == old(self).pid,
    {
        self.cnt = v;
        if self.cnt >= 1 {
            self.bus.set(EvFlag::SEM_ACQ);
        }
    }
}

#[derive(Clone, Copy)]
pub struct IpcPerm {
    pub key: u32,
    pub uid: u32,
    pub gid: u32,
    pub cuid: u32,
    pub cgid: u32,
    pub mode: u32,
    pub seq: u32,
    pub pad1: usize,
    pub pad2: usize,
}

#[derive(Clone, Copy)]
pub struct SemDs {
    pub perm: IpcPerm,
    pub otime: usize,
    pub _p1: usize,
    pub ctime: usize,
    pub _p2: usize,
    pub nsems: usize,
}

/// A semaphore set with its descriptor.
pub struct SemArr {
    pub ds: SemDs,
    pub sems: Vec<Sema>,
}

/// The permission bits kept from a mode.
pub open spec fn perm_bits(flags: usize) -> u32 {
    (flags & 0x1ff) as u32
}

/// `a` is a fresh set of `nsems` semaphores at zero, under `k`, with the
/// permission bits of `flags`.
pub open spec fn fresh_arr(a: SemArr, k: u32, nsems: usize, flags: usize) -> bool {
    &&& a.ds.perm == IpcPerm {
        key: k, uid: 0, gid: 0, cuid: 0, cgid: 0, mode: perm_bits(flags), seq: 0, pad1: 0, pad2: 0,
    }
    &&& a.ds.otime == 0 && a.ds._p1 == 0 && a.ds.ctime == 0 && a.ds._p2 == 0
    &&& a.ds.nsems == nsems
    &&& a.sems@.len() == nsems
    &&& forall|i: int| 0 <= i < nsems ==> (#[trigger] a.sems@[i]).cnt == 0 && a.sems@[i].pid == 0
        && !a.sems@[i].rm && a.sems@[i].bus.ev == 0
}

/// The lowest key from 1 up that the store does not hold.
pub open spec fn lowest_free_key(m: Map<usize, SemArr>, k: usize) -> bool {
    &&& k >= 1
    &&& !m.contains_key(k)
    &&& forall|j: usize| 1 <= j < k ==> m.contains_key(j)
}

/// Both "create" and "exclusive" are asked for.
pub open spec fn create_excl(flags: usize) -> bool {
    flags & 0x200 != 0 && flags & 0x400 != 0
}

impl SemArr {
    /// Removes every semaphore of the set.
    pub fn remove(&mut self)
        ensures
            final(self).ds == old(self).ds,
            final(self).sems@.len() == old(self).sems@.len(),
            forall|i: int| 0 <= i < old(self).sems@.len() ==> {
                &&& (#[trigger] final(self).sems@[i]).rm
                &&& final(self).sems@[i].bus.ev == old(self).sems@[i].bus.ev | EvFlag::SEM_RM
                &&& final(self).sems@[i].cnt == old(self).sems@[i].cnt
                &&& final(self).sems@[i].pid == old(self).sems@[i].pid
            },
    {
        let n = self.sems.len();
        let mut i: usize = 0;
        while i < n
            invariant
                n == old(self).sems@.len(),
                self.sems@.len() == n,
                i <= n,
                self.ds == old(self).ds,
                forall|k: int| 0 <= k < i ==> {
                    &&& (#[trigger] self.sems@[k]).rm
                    &&& self.sems@[k].bus.ev == old(self).sems@[k].bus.ev | EvFlag::SEM_RM
                    &&& self.sems@[k].cnt == old(self).sems@[k].cnt
                    &&& self.sems@[k].pid == old(self).sems@[k].pid
                },
                forall|k: int| i <= k < n ==> #[trigger] self.sems@[k] == old(self).sems@[k],
            decreases n - i,
        {
            let ev = self.sems[i].bus.ev;
            self.sems[i].rm = true;
            self.sems[i].bus.ev = ev | EvFlag::SEM_RM;
            i = i + 1;
        }
    }

    pub fn otime_now(&mut self)
        ensures
            final(self).ds == (SemDs { otime: 0, ..old(self).ds }),
            final(self).sems == old(self).sems,
    {
        self.ds.otime = 0;
    }

    pub fn ctime_now(&mut self)
        ensures
            final(self).ds == (SemDs { ctime: 0, ..old(self).ds }),
            final(self).sems == old(self).sems,
    {
        self.ds.ctime = 0;
    }

    /// Takes the owner, group and permission bits from `new`.
    pub fn set_ds(&mut self, new: &SemDs)
        ensures
            final(self).ds.perm == (IpcPerm {
                uid: new.perm.uid, gid: new.perm.gid, mode: new.perm.mode & 0x1ff, ..old(self).ds.perm
            }),
            final(self).ds.otime == old(self).ds.otime,
            final(self).ds.ctime == old(self).ds.ctime,
            final(self).ds.nsems == old(self).ds.nsems,
            final(self).ds._p1 == old(self).ds._p1,
            final(self).ds._p2 == old(self).ds._p2,
            final(self).sems == old(self).sems,
    {
        self.ds.perm.uid = new.perm.uid;
        self.ds.perm.gid = new.perm.gid;
        self.ds.perm.mode = new.perm.mode & 0x1ff;
    }

    fn fresh(k: u32, nsems: usize, flags: usize) -> (a: SemArr)
        ensures
            fresh_arr(a, k, nsems, flags),
    {
        let mut sv: Vec<Sema> = Vec::new();
        let mut i: usize = 0;
        while i < nsems
            invariant
                i <= nsems,
                sv@.len() == i,
                forall|j: int| 0 <= j < i ==> (#[trigger] sv@[j]).cnt == 0 && sv@[j].pid == 0
                    && !sv@[j].rm && sv@[j].bus.ev == 0,
            decreases nsems - i,
        {
            sv.push(Sema::new(0));
            i = i + 1;
        }
        SemArr {
            ds: SemDs {
                perm: IpcPerm {
                    key: k, uid: 0, gid: 0, cuid: 0, cgid: 0, mode: (flags & 0x1ff) as u32, seq: 0, pad1: 0, pad2: 0,
                },
                otime: 0,
                _p1: 0,
                ctime: 0,
                _p2: 0,
                nsems,
            },
            sems: sv,
        }
    }

    /// Finds the set under `key`, or creates it with `nsems` semaphores;
    /// key 0 asks for a new set under the lowest free key. Asking to create
    /// exclusively a set that exists fails. Returns the set's key.
    pub fn get_or_create(key: u32, nsems: usize, flags: usize, store: &mut IdMap<SemArr>) -> (r: Result<u32, &'static str>)
        requires
            old(store).wf(),
            old(store).entries@.len() + 1 < u32::MAX,
        ensures
            final(store).wf(),
            key != 0 && old(store).view_map().contains_key(key as usize) ==> {
                &&& r == if create_excl(flags) { Err::<u32, &'static str>("eexist") } else { Ok::<u32, &'static str>(key) }
                &&& final(store).view_map() == old(store).view_map()
            },
            key != 0 && !old(store).view_map().contains_key(key as usize) ==> {
                &&& r == Ok::<u32, &'static str>(key)
                &&& final(store).view_map().dom() == old(store).view_map().dom().insert(key as usize)
                &&& fresh_arr(final(store).view_map()[key as usize], key, nsems, flags)
                &&& forall|j: usize| j != key && old(store).view_map().contains_key(j)
                    ==> final(store).view_map()[j] == old(store).view_map()[j]
            },
            key == 0 ==> (r matches Ok(k) && {
                &&& lowest_free_key(old(store).view_map(), k as usize)
                &&& final(store).view_map().dom() == old(store).view_map().dom().insert(k as usize)
                &&& fresh_arr(final(store).view_map()[k as usize], k, nsems, flags)
                &&& forall|j: usize| j != k && old(store).view_map().contains_key(j)
                    ==> final(store).view_map()[j] == old(store).view_map()[j]
            }),
    {
        let k: u32 = if key == 0 {
            let f = store.free_from(1);
            proof {
                lemma_run_fits(store.entries@, 1, f);
                assert forall|j: usize| 1 <= j < f implies store.view_map().contains_key(j) by {
                    assert(has_fd(store.entries@, j));
                }
            }
            f as u32
        } else {
            if store.contains_key(key as usize) {
                if (flags & 0x200) != 0 && (flags & 0x400) != 0 {
                    return Err("eexist");
                }
                return Ok(key);
            }
            key
        };
        let arr = SemArr::fresh(k, nsems, flags);
        let _ = store.insert(k as usize, arr);
        Ok(k)
    }
}

/// Finds the shared segment under `key`, or creates it with `npages` zeroed
/// page slots; returns the key it lives under.
pub fn shm_get_or_create(key: usize, npages: usize, store: &mut IdMap<Vec<usize>>) -> (r: usize)
    requires
        old(store).wf(),
    ensures
        r == key,
        final(store).wf(),
        old(store).view_map().contains_key(key) ==> final(store).view_map() == old(store).view_map(),
        !old(store).view_map().contains_key(key) ==> {
            &&& final(store).view_map().dom() == old(store).view_map().dom().insert(key)
            &&& final(store).view_map()[key]@ == Seq::new(npages as nat, |i: int| 0usize)
            &&& forall|j: usize| j != key && old(store).view_map().contains_key(j)
                ==> final(store).view_map()[j] == old(store).view_map()[j]
        },
{
    if store.contains_key(key) {
        return key;
    }
    let mut g: Vec<usize> = Vec::new();
    let mut i: usize = 0;
    while i < npages
        invariant
            i <= npages,
            g@ == Seq::new(i as nat, |j: int| 0usize),
        decreases npages - i,
    {
        g.push(0);
        i = i + 1;
        assert(g@ =~= Seq::new(i as nat, |j: int| 0usize));
    }
    let _ = store.insert(key, g);
    key
}

} // verus!
