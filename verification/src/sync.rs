//! The kernel's re-entrant big lock and a plain spin flag, modelled as
//! state machines over their fields. A caller that would have to wait for
//! another holder is outside the contracts: with a single owner of the
//! lock nothing could ever release it.
use vstd::prelude::*;

verus! {

pub struct KernLock {
    pub flag: bool,
    pub holder: usize,
    pub depth: usize,
}

impl KernLock {
    /// `id` may enter without waiting: it already holds the lock (and is
    /// not the anonymous id 0), or nobody does.
    pub open spec fn can_enter(&self, id: usize) -> bool {
        (self.holder == id && id != 0) || !self.flag
    }

    /// The lock after `id` enters it.
    pub open spec fn enter_spec(self, id: usize) -> KernLock {
        if self.holder == id && id != 0 {
            KernLock { depth: vstd::wrapping::usize_specs::wrapping_add(self.depth, 1), ..self }
        } else {
            KernLock { flag: true, holder: id, depth: 1 }
        }
    }

    /// The lock after its holder leaves it once.
    pub open spec fn leave_spec(self) -> KernLock {
        if self.depth > 1 {
            KernLock { depth: (self.depth - 1) as usize, ..self }
        } else {
            KernLock {
                flag: false,
                holder: 0,
                depth: vstd::wrapping::usize_specs::wrapping_sub(self.depth, 1),
            }
        }
    }

    pub fn new() -> (r: Self)
        ensures
            !r.flag,
            r.holder == 0,
            r.depth == 0,
    {
        KernLock { flag: false, holder: 0, depth: 0 }
    }

    pub fn enter(&mut self, id: usize)
        requires
            old(self).can_enter(id),
        ensures
            *final(self) == old(self).enter_spec(id),
    {
        if self.holder == id && id != 0 {
            self.depth = self.depth.wrapping_add(1);
            return;
        }
        self.flag = true;
        self.holder = id;
        self.depth = 1;
    }

    pub fn leave(&mut self)
        ensures
            *final(self) == old(self).leave_spec(),
    {
        let prev = self.depth;
        self.depth = self.depth.wrapping_sub(1);
        if prev > 1 {
            return;
        }
        self.holder = 0;
        self.flag = false;
    }

    pub fn held(&self) -> (r: bool)
        ensures
            r == self.flag,
    {
        self.flag
    }

    pub fn owner(&self) -> (r: usize)
        ensures
            r == self.holder,
    {
        self.holder
    }

    pub fn level(&self) -> (r: usize)
        ensures
            r == self.depth,
    {
        self.depth
    }

    pub fn try_enter(&mut self, id: usize) -> (r: bool)
        ensures
            r == old(self).can_enter(id),
            r ==> *final(self) == old(self).enter_spec(id),
            !r ==> *final(self) == *old(self),
    {
        if self.holder == id && id != 0 {
            self.depth = self.depth.wrapping_add(1);
            return true;
        }
        if !self.flag {
            self.flag = true;
            self.holder = id;
            self.depth = 1;
            true
        } else {
            false
        }
    }
}

/// Entering a free lock and leaving it again frees it, with nobody as the
/// holder and no depth left.
pub proof fn law_enter_leave_frees(l: KernLock, id: usize)
    requires
        l.can_enter(id),
        !(l.holder == id && id != 0),
    ensures
        l.enter_spec(id).leave_spec() == (KernLock { flag: false, holder: 0, depth: 0 }),
{
}

/// A holder that enters again and leaves again finds the lock as it was.
pub proof fn law_reenter_leave_restores(l: KernLock, id: usize)
    requires
        l.holder == id,
        id != 0,
        1 <= l.depth < usize::MAX,
    ensures
        l.enter_spec(id).leave_spec() == l,
{
}

pub struct Spin {
    pub v: bool,
}

impl Spin {
    pub fn new() -> (r: Self)
        ensures
            !r.v,
    {
        Spin { v: false }
    }

    /// Takes the flag; a flag that is already taken would never be given
    /// back while its only owner waits here.
    pub fn acquire(&mut self)
        requires
            !old(self).v,
        ensures
            final(self).v,
    {
        self.v = true;
    }

    pub fn try_acquire(&mut self) -> (r: bool)
        ensures
            r == !old(self).v,
            final(self).v,
    {
        if !self.v {
            self.v = true;
            true
        } else {
            false
        }
    }

    pub fn release(&mut self)
        ensures
            !final(self).v,
    {
        self.v = false;
    }

    pub fn is_held(&self) -> (r: bool)
        ensures
            r == self.v,
    {
        self.v
    }
}

} // verus!
