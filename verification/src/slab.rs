//! A slab of equally sized objects carved from one buffer.
use vstd::prelude::*;
use std::collections::VecDeque;
use crate::consts::SLAB_ALIGN;

verus! {

pub struct SlabEntry {
    pub data: Vec<u8>,
    pub obj_size: usize,
    pub capacity: usize,
    pub free_list: VecDeque<usize>,
    pub allocated: usize,
    pub tag: u32,
}

/// `d` with the bytes in `[a, b)` set to zero.
pub open spec fn zeroed_between(d: Seq<u8>, a: int, b: int) -> Seq<u8> {
    Seq::new(d.len(), |i: int| if a <= i < b { 0u8 } else { d[i] })
}

/// `x` rounded up to the slab alignment.
pub open spec fn slab_aligned(x: int) -> int {
    (x + SLAB_ALIGN - 1) / SLAB_ALIGN as int * SLAB_ALIGN
}

impl SlabEntry {
    /// Every free offset lies within the buffer.
    pub open spec fn wf(&self) -> bool {
        forall|i: int| 0 <= i < self.free_list@.len() ==> #[trigger] self.free_list@[i] <= self.data@.len()
    }

    /// A slab of `capacity` objects of `obj_size` bytes rounded up to the
    /// alignment, all free, in increasing order of offset.
    pub fn new(obj_size: usize, capacity: usize) -> (r: Self)
        requires
            obj_size + SLAB_ALIGN <= usize::MAX,
            slab_aligned(obj_size as int) * capacity <= usize::MAX,
        ensures
            r.wf(),
            r.obj_size == slab_aligned(obj_size as int),
            r.capacity == capacity,
            r.data@ == Seq::new((r.obj_size * capacity) as nat, |i: int| 0u8),
            r.free_list@ == Seq::new(capacity as nat, |i: int| (i * r.obj_size) as usize),
            r.allocated == 0,
            r.tag == 0,
    {
        let aligned = (obj_size + SLAB_ALIGN - 1) & !(SLAB_ALIGN - 1);
        assert(aligned == (obj_size + 7) / 8 * 8) by (bit_vector)
            requires
                aligned == ((obj_size + 7) as usize) & !7usize,
                (obj_size + 7) as usize == obj_size + 7;
        let total = aligned * capacity;
        let mut fl: VecDeque<usize> = VecDeque::new();
        let mut i: usize = 0;
        while i < capacity
            invariant
                i <= capacity,
                aligned * capacity <= usize::MAX,
                fl@ == Seq::new(i as nat, |k: int| (k * aligned) as usize),
            decreases capacity - i,
        {
            assert(i * aligned <= capacity * aligned) by (nonlinear_arith)
                requires
                    i <= capacity;
            fl.push_back(i * aligned);
            i = i + 1;
            assert(fl@ =~= Seq::new(i as nat, |k: int| (k * aligned) as usize));
        }
        let mut data: Vec<u8> = Vec::new();
        let mut j: usize = 0;
        while j < total
            invariant
                j <= total,
                data@ == Seq::new(j as nat, |k: int| 0u8),
            decreases total - j,
        {
            data.push(0);
            j = j + 1;
            assert(data@ =~= Seq::new(j as nat, |k: int| 0u8));
        }
        let r = SlabEntry { data, obj_size: aligned, capacity, free_list: fl, allocated: 0, tag: 0 };
        assert forall|k: int| 0 <= k < r.free_list@.len() implies #[trigger] r.free_list@[k] <= r.data@.len() by {
            assert(r.free_list@[k] == (k * aligned) as usize);
            assert(0 <= k * aligned <= aligned * capacity) by (nonlinear_arith)
                requires
                    0 <= k < capacity,
                    aligned >= 0;
        }
        r
    }

    /// Takes the oldest free object and returns its offset. The object's
    /// bytes are cleared unless `zeroed` is asked for.
    pub fn slab_alloc(&mut self, zeroed: bool) -> (r: Option<usize>)
        requires
            old(self).wf(),
            old(self).free_list@.len() > 0 ==> old(self).free_list@[0] + old(self).obj_size <= usize::MAX,
            old(self).free_list@.len() > 0 ==> old(self).allocated < usize::MAX,
        ensures
            final(self).wf(),
            final(self).obj_size == old(self).obj_size,
            final(self).capacity == old(self).capacity,
            final(self).tag == old(self).tag,
            old(self).free_list@.len() == 0 ==> r is None && final(self).free_list@ == old(self).free_list@
                && final(self).data == old(self).data && final(self).allocated == old(self).allocated,
            old(self).free_list@.len() > 0 ==> {
                let slot = old(self).free_list@[0];
                let end = if slot + old(self).obj_size > old(self).data@.len() { old(self).data@.len() as int } else { slot + old(self).obj_size };
                &&& r == Some(slot)
                &&& final(self).free_list@ == old(self).free_list@.drop_first()
                &&& final(self).allocated == old(self).allocated + 1
                &&& final(self).data@ == if zeroed { old(self).data@ } else { zeroed_between(old(self).data@, slot as int, end) }
            },
    {
        let slot = match self.free_list.pop_front() {
            Some(s) => s,
            None => {
                return None;
            },
        };
        assert(slot == old(self).free_list@[0]);
        let candidate = slot + self.obj_size;
        let obj_end = if candidate > self.data.len() { self.data.len() } else { candidate };
        let needs_init = zeroed;
        if !needs_init {
            let mut pos: usize = slot;
            while pos < obj_end
                invariant
                    slot <= pos <= obj_end,
                    obj_end <= self.data@.len(),
                    self.data@.len() == old(self).data@.len(),
                    self.allocated == old(self).allocated,
                    self.obj_size == old(self).obj_size,
                    self.capacity == old(self).capacity,
                    self.tag == old(self).tag,
                    self.free_list@ == old(self).free_list@.drop_first(),
                    old(self).free_list@.len() > 0,
                    forall|k: int| 0 <= k < self.data@.len() ==> #[trigger] self.data@[k] == if slot <= k < pos { 0u8 } else { old(self).data@[k] },
                decreases obj_end - pos,
            {
                self.data[pos] = 0;
                pos = pos + 1;
            }
            assert(self.data@ =~= zeroed_between(old(self).data@, slot as int, obj_end as int));
        }
        self.allocated = self.allocated + 1;
        proof {
            assert forall|k: int| 0 <= k < self.free_list@.len() implies #[trigger] self.free_list@[k] <= self.data@.len() by {
                assert(self.free_list@[k] == old(self).free_list@[k + 1]);
            }
        }
        Some(slot)
    }

    /// Gives an object back, if `offset` lies in the buffer on an object
    /// boundary.
    pub fn slab_free(&mut self, offset: usize)
        requires
            old(self).wf(),
            old(self).obj_size > 0,
        ensures
            final(self).wf(),
            final(self).data == old(self).data,
            final(self).obj_size == old(self).obj_size,
            final(self).capacity == old(self).capacity,
            final(self).tag == old(self).tag,
            offset < old(self).data@.len() && offset % old(self).obj_size == 0 ==> {
                &&& final(self).free_list@ == old(self).free_list@.push(offset)
                &&& final(self).allocated == if old(self).allocated > 0 { (old(self).allocated - 1) as usize } else { 0 }
            },
            !(offset < old(self).data@.len() && offset % old(self).obj_size == 0) ==> {
                &&& final(self).free_list@ == old(self).free_list@
                &&& final(self).allocated == old(self).allocated
            },
    {
        let valid = offset < self.data.len();
        let aligned = (offset % self.obj_size) == 0;
        if valid && aligned {
            self.free_list.push_back(offset);
            if self.allocated > 0 {
                self.allocated = self.allocated - 1;
            }
            proof {
                assert forall|k: int| 0 <= k < self.free_list@.len() implies #[trigger] self.free_list@[k] <= self.data@.len() by {
                    if k < old(self).free_list@.len() {
                        assert(self.free_list@[k] == old(self).free_list@[k]);
                    }
                }
            }
        }
    }

    pub fn slab_used(&self) -> (r: usize)
        ensures
            r == self.allocated,
    {
        self.allocated
    }

    pub fn slab_avail(&self) -> (r: usize)
        ensures
            r == self.free_list@.len(),
    {
        self.free_list.len()
    }

    /// Releases the buffer of a slab with nothing allocated; returns how
    /// many bytes were released.
    pub fn shrink(&mut self) -> (r: usize)
        requires
            old(self).wf(),
        ensures
            final(self).wf(),
            old(self).allocated == 0 ==> r == old(self).data@.len() && final(self).data@.len() == 0
                && final(self).free_list@.len() == 0,
            old(self).allocated != 0 ==> r == 0 && final(self).data == old(self).data
                && final(self).free_list == old(self).free_list,
            final(self).allocated == old(self).allocated,
            final(self).obj_size == old(self).obj_size,
            final(self).capacity == old(self).capacity,
    {
        let before = self.data.len();
        if self.allocated == 0 {
            self.data.clear();
            self.free_list.clear();
        }
        before - self.data.len()
    }

    /// The bytes of the object at `offset`, if it lies wholly in the buffer.
    pub fn obj_at(&self, offset: usize) -> (r: Option<&[u8]>)
        requires
            offset + self.obj_size <= usize::MAX,
        ensures
            offset + self.obj_size <= self.data@.len() ==> (r matches Some(b) && b@ == self.data@.subrange(offset as int, offset + self.obj_size)),
            offset + self.obj_size > self.data@.len() ==> r is None,
    {
        if offset + self.obj_size <= self.data.len() {
            Some(vstd::slice::slice_subrange(self.data.as_slice(), offset, offset + self.obj_size))
        } else {
            None
        }
    }
}

} // verus!
