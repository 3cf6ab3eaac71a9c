//! A registry of kernel objects, indexed by type and linked to parents.
use vstd::prelude::*;
use crate::fdtable::{IdMap, fd_keys};
use crate::pagecache::{bump, retain_without, without, wrap_inc};

verus! {

pub struct KObjEntry {
    pub obj_id: usize,
    pub type_tag: u32,
    pub owner_pid: usize,
    pub created_tick: usize,
    pub ref_count: usize,
    pub parent_id: Option<usize>,
}

pub struct KObjRegistry {
    pub objects: IdMap<KObjEntry>,
    pub seq: usize,
    pub type_index: IdMap<Vec<usize>>,
}

/// The ids listed under `tag`, or none.
pub open spec fn tlist(idx: Map<usize, Seq<usize>>, tag: usize) -> Seq<usize> {
    if idx.contains_key(tag) { idx[tag] } else { Seq::empty() }
}

/// The index with `id` taken off the list of `tag`, where there is one.
pub open spec fn idx_drop(idx: Map<usize, Seq<usize>>, tag: usize, id: usize) -> Map<usize, Seq<usize>> {
    if idx.contains_key(tag) { idx.insert(tag, without(idx[tag], id)) } else { idx }
}

/// The ids of the first `n` entries whose object satisfies `p`, in order.
pub open spec fn obj_ids_where(s: Seq<(usize, KObjEntry)>, p: spec_fn(KObjEntry) -> bool, n: int) -> Seq<usize>
    decreases n,
{
    if n <= 0 {
        Seq::empty()
    } else {
        let r = obj_ids_where(s, p, n - 1);
        if p(s[n - 1].1) { r.push(s[n - 1].0) } else { r }
    }
}

/// The (parent, child) links of the first `n` entries, in order of the child.
pub open spec fn obj_edges(s: Seq<(usize, KObjEntry)>, n: int) -> Seq<(usize, usize)>
    decreases n,
{
    if n <= 0 {
        Seq::empty()
    } else {
        let r = obj_edges(s, n - 1);
        match s[n - 1].1.parent_id {
            Some(p) => r.push((p, s[n - 1].0)),
            None => r,
        }
    }
}

/// Objects and index after unregistering each of `ids` in turn.
pub open spec fn sweep(objs: Map<usize, KObjEntry>, idx: Map<usize, Seq<usize>>, ids: Seq<usize>) -> (Map<usize, KObjEntry>, Map<usize, Seq<usize>>)
    decreases ids.len(),
{
    if ids.len() == 0 {
        (objs, idx)
    } else {
        let (o, x) = sweep(objs, idx, ids.drop_last());
        let id = ids.last();
        if o.contains_key(id) {
            (o.remove(id), idx_drop(x, o[id].type_tag as usize, id))
        } else {
            (o, x)
        }
    }
}

/// Objects with no references left.
pub open spec fn dead_pred() -> spec_fn(KObjEntry) -> bool {
    |e: KObjEntry| e.ref_count == 0
}

/// Objects owned by `pid`.
pub open spec fn owned_by(pid: usize) -> spec_fn(KObjEntry) -> bool {
    |e: KObjEntry| e.owner_pid == pid
}

pub fn copy_ids_pub(v: &Vec<usize>) -> (r: Vec<usize>)
    ensures
        r@ == v@,
{
    copy_ids(v)
}

fn copy_ids(v: &Vec<usize>) -> (r: Vec<usize>)
    ensures
        r@ == v@,
{
    let mut out: Vec<usize> = Vec::new();
    let mut i: usize = 0;
    while i < v.len()
        invariant
            i <= v@.len(),
            out@ == v@.take(i as int),
        decreases v@.len() - i,
    {
        out.push(v[i]);
        i = i + 1;
        assert(out@ =~= v@.take(i as int));
    }
    assert(v@.take(v@.len() as int) =~= v@);
    out
}

impl KObjRegistry {
    pub open spec fn wf(&self) -> bool {
        self.objects.wf() && self.type_index.wf()
    }

    /// The registered objects by id.
    pub open spec fn objs(&self) -> Map<usize, KObjEntry> {
        self.objects.view_map()
    }

    /// The ids registered under each type.
    pub open spec fn tindex(&self) -> Map<usize, Seq<usize>> {
        Map::new(|k: usize| self.type_index.view_map().dom().contains(k), |k: usize| self.type_index.view_map()[k]@)
    }

    pub fn new() -> (r: Self)
        ensures
            r.wf(),
            r.objs() == Map::<usize, KObjEntry>::empty(),
            r.tindex() == Map::<usize, Seq<usize>>::empty(),
            r.seq == 1,
    {
        let r = KObjRegistry { objects: IdMap::new(), seq: 1, type_index: IdMap::new() };
        assert(r.objs() =~= Map::<usize, KObjEntry>::empty());
        assert(r.tindex() =~= Map::<usize, Seq<usize>>::empty());
        r
    }

    fn index_add(&mut self, tag: u32, id: usize)
        requires
            old(self).wf(),
        ensures
            final(self).wf(),
            final(self).objects == old(self).objects,
            final(self).seq == old(self).seq,
            final(self).tindex() == old(self).tindex().insert(tag as usize, tlist(old(self).tindex(), tag as usize).push(id)),
    {
        let key = tag as usize;
        let mut list = match self.type_index.remove(key) {
            Some(l) => l,
            None => Vec::new(),
        };
        list.push(id);
        let _ = self.type_index.insert(key, list);
        assert(self.tindex() =~= old(self).tindex().insert(key, tlist(old(self).tindex(), key).push(id)));
    }

    fn index_drop(&mut self, tag: u32, id: usize)
        requires
            old(self).wf(),
        ensures
            final(self).wf(),
            final(self).objects == old(self).objects,
            final(self).seq == old(self).seq,
            final(self).tindex() == idx_drop(old(self).tindex(), tag as usize, id),
    {
        let key = tag as usize;
        match self.type_index.remove(key) {
            Some(list) => {
                let l2 = retain_without(&list, id);
                let _ = self.type_index.insert(key, l2);
                assert(self.tindex() =~= idx_drop(old(self).tindex(), key, id));
            },
            None => {
                assert(self.tindex() =~= old(self).tindex());
            },
        }
    }

    fn add_obj(&mut self, type_tag: u32, owner_pid: usize, parent: Option<usize>, now: usize) -> (id: usize)
        requires
            old(self).wf(),
        ensures
            final(self).wf(),
            id == old(self).seq,
            final(self).seq == wrap_inc(old(self).seq),
            final(self).objs() == old(self).objs().insert(id, KObjEntry {
                obj_id: id, type_tag, owner_pid, created_tick: now, ref_count: 1, parent_id: parent,
            }),
            final(self).tindex() == old(self).tindex().insert(type_tag as usize, tlist(old(self).tindex(), type_tag as usize).push(id)),
    {
        let id = self.seq;
        self.seq = bump(self.seq);
        let entry = KObjEntry { obj_id: id, type_tag, owner_pid, created_tick: now, ref_count: 1, parent_id: parent };
        let _ = self.objects.insert(id, entry);
        self.index_add(type_tag, id);
        id
    }

    /// Registers an object of `type_tag` owned by `owner_pid`, created at
    /// `now`, with one reference; returns its id.
    pub fn register(&mut self, type_tag: u32, owner_pid: usize, now: usize) -> (id: usize)
        requires
            old(self).wf(),
        ensures
            final(self).wf(),
            id == old(self).seq,
            final(self).seq == wrap_inc(old(self).seq),
            final(self).objs() == old(self).objs().insert(id, KObjEntry {
                obj_id: id, type_tag, owner_pid, created_tick: now, ref_count: 1, parent_id: None,
            }),
            final(self).tindex() == old(self).tindex().insert(type_tag as usize, tlist(old(self).tindex(), type_tag as usize).push(id)),
    {
        self.add_obj(type_tag, owner_pid, None, now)
    }

    /// Registers an object as a child of `parent`.
    pub fn register_child(&mut self, type_tag: u32, owner_pid: usize, parent: usize, now: usize) -> (id: usize)
        requires
            old(self).wf(),
        ensures
            final(self).wf(),
            id == old(self).seq,
            final(self).seq == wrap_inc(old(self).seq),
            final(self).objs() == old(self).objs().insert(id, KObjEntry {
                obj_id: id, type_tag, owner_pid, created_tick: now, ref_count: 1, parent_id: Some(parent),
            }),
            final(self).tindex() == old(self).tindex().insert(type_tag as usize, tlist(old(self).tindex(), type_tag as usize).push(id)),
    {
        self.add_obj(type_tag, owner_pid, Some(parent), now)
    }

    /// Drops an object and its place in the type index; false if unknown.
    pub fn unregister(&mut self, id: usize) -> (r: bool)
        requires
            old(self).wf(),
        ensures
            final(self).wf(),
            r == old(self).objs().contains_key(id),
            final(self).objs() == old(self).objs().remove(id),
            r ==> final(self).tindex() == idx_drop(old(self).tindex(), old(self).objs()[id].type_tag as usize, id),
            !r ==> final(self).tindex() == old(self).tindex(),
            final(self).seq == old(self).seq,
    {
        match self.objects.remove(id) {
            Some(entry) => {
                self.index_drop(entry.type_tag, id);
                true
            },
            None => {
                assert(!old(self).objs().dom().contains(id));
                false
            },
        }
    }

    /// The ids registered under `tag`, in order of registration.
    pub fn find_by_type(&self, tag: u32) -> (r: Vec<usize>)
        requires
            self.wf(),
        ensures
            r@ == tlist(self.tindex(), tag as usize),
    {
        match self.type_index.lookup(tag as usize) {
            Some(list) => copy_ids(list),
            None => Vec::new(),
        }
    }

    /// The (parent, child) links, in increasing order of the child.
    pub fn dump_graph(&self) -> (r: Vec<(usize, usize)>)
        ensures
            r@ == obj_edges(self.objects.entries@, self.objects.entries@.len() as int),
    {
        let mut edges: Vec<(usize, usize)> = Vec::new();
        let mut i: usize = 0;
        while i < self.objects.entries.len()
            invariant
                i <= self.objects.entries@.len(),
                edges@ == obj_edges(self.objects.entries@, i as int),
            decreases self.objects.entries@.len() - i,
        {
            match self.objects.entries[i].1.parent_id {
                Some(p) => edges.push((p, self.objects.entries[i].0)),
                None => {},
            }
            i = i + 1;
        }
        edges
    }

    /// The ids of the objects that satisfy `p`, in increasing order.
    fn ids_with(&self, dead: bool, owner: usize) -> (r: Vec<usize>)
        ensures
            r@ == obj_ids_where(self.objects.entries@, if dead { dead_pred() } else { owned_by(owner) }, self.objects.entries@.len() as int),
    {
        let ghost p = if dead { dead_pred() } else { owned_by(owner) };
        let mut out: Vec<usize> = Vec::new();
        let mut i: usize = 0;
        while i < self.objects.entries.len()
            invariant
                i <= self.objects.entries@.len(),
                out@ == obj_ids_where(self.objects.entries@, p, i as int),
                p == (if dead { dead_pred() } else { owned_by(owner) }),
            decreases self.objects.entries@.len() - i,
        {
            let e = &self.objects.entries[i].1;
            let hit = if dead { e.ref_count == 0 } else { e.owner_pid == owner };
            assert(hit == p(self.objects.entries@[i as int].1));
            if hit {
                out.push(self.objects.entries[i].0);
            }
            i = i + 1;
        }
        out
    }

    /// Unregisters every object with no references left; returns how many.
    pub fn gc_sweep(&mut self) -> (r: usize)
        requires
            old(self).wf(),
        ensures
            final(self).wf(),
            ({
                let dead = obj_ids_where(old(self).objects.entries@, dead_pred(), old(self).objects.entries@.len() as int);
                &&& r == dead.len()
                &&& (final(self).objs(), final(self).tindex()) == sweep(old(self).objs(), old(self).tindex(), dead)
            }),
            final(self).seq == old(self).seq,
    {
        let dead = self.ids_with(true, 0);
        let ghost o0 = self.objs();
        let ghost x0 = self.tindex();
        let count = dead.len();
        let mut i: usize = 0;
        while i < dead.len()
            invariant
                self.wf(),
                i <= dead@.len(),
                (self.objs(), self.tindex()) == sweep(o0, x0, dead@.take(i as int)),
                self.seq == old(self).seq,
            decreases dead@.len() - i,
        {
            proof {
                assert(dead@.take(i as int + 1).drop_last() =~= dead@.take(i as int));
            }
            let _ = self.unregister(dead[i]);
            i = i + 1;
        }
        assert(dead@.take(dead@.len() as int) =~= dead@);
        count
    }

    /// Takes one more reference on an object; false if unknown.
    pub fn ref_up(&mut self, id: usize) -> (r: bool)
        requires
            old(self).wf(),
            old(self).objs().contains_key(id) ==> old(self).objs()[id].ref_count < usize::MAX,
        ensures
            final(self).wf(),
            r == old(self).objs().contains_key(id),
            r ==> final(self).objs() == old(self).objs().insert(id, KObjEntry {
                ref_count: (old(self).objs()[id].ref_count + 1) as usize, ..old(self).objs()[id]
            }),
            !r ==> final(self).objs() == old(self).objs(),
            final(self).tindex() == old(self).tindex(),
            final(self).seq == old(self).seq,
    {
        match self.objects.remove(id) {
            Some(e) => {
                let e2 = KObjEntry { ref_count: e.ref_count + 1, ..e };
                let _ = self.objects.insert(id, e2);
                assert(self.objs() =~= old(self).objs().insert(id, e2));
                true
            },
            None => {
                assert(!old(self).objs().dom().contains(id));
                assert(self.objs() =~= old(self).objs());
                false
            },
        }
    }

    /// Drops one reference on an object, stopping at zero; false if unknown.
    pub fn ref_down(&mut self, id: usize) -> (r: bool)
        requires
            old(self).wf(),
        ensures
            final(self).wf(),
            r == old(self).objs().contains_key(id),
            r ==> final(self).objs() == old(self).objs().insert(id, KObjEntry {
                ref_count: if old(self).objs()[id].ref_count > 0 { (old(self).objs()[id].ref_count - 1) as usize } else { 0 },
                ..old(self).objs()[id]
            }),
            !r ==> final(self).objs() == old(self).objs(),
            final(self).tindex() == old(self).tindex(),
            final(self).seq == old(self).seq,
    {
        match self.objects.remove(id) {
            Some(e) => {
                let rc = if e.ref_count > 0 { e.ref_count - 1 } else { 0 };
                let e2 = KObjEntry { ref_count: rc, ..e };
                let _ = self.objects.insert(id, e2);
                assert(self.objs() =~= old(self).objs().insert(id, e2));
                true
            },
            None => {
                assert(!old(self).objs().dom().contains(id));
                assert(self.objs() =~= old(self).objs());
                false
            },
        }
    }

    /// How many objects are registered.
    pub fn count(&self) -> (r: usize)
        ensures
            r == self.objects.entries@.len(),
    {
        self.objects.len()
    }

    /// The ids of the objects owned by `pid`, in increasing order.
    pub fn owner_objects(&self, pid: usize) -> (r: Vec<usize>)
        ensures
            r@ == obj_ids_where(self.objects.entries@, owned_by(pid), self.objects.entries@.len() as int),
    {
        self.ids_with(false, pid)
    }
}

} // verus!
