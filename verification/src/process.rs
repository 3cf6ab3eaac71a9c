//! Per-process state: capabilities, signals, timers and the run queue.
use vstd::prelude::*;

verus! {

pub const INHERITABLE_MASK: u64 = 0x0000_00FF_FFFF_FFFF;
pub const NSIG: u32 = 64;
pub const SIG_DFL: usize = 0;
pub const SIG_IGN: usize = 1;
pub const SIGKILL: u32 = 9;
pub const SIGSTOP: u32 = 19;
pub const SIGCHLD: u32 = 17;
pub const TIMER_WHEEL_SIZE: usize = 256;
pub const USEC_TICK: usize = 1000;
pub const PRIO_MIN: i32 = -20;
pub const PRIO_MAX: i32 = 19;
pub const PRIO_DEFAULT: i32 = 0;
pub const SCHED_NORMAL: u8 = 0;
pub const SCHED_FIFO: u8 = 1;
pub const SCHED_RR: u8 = 2;
pub const SCHED_BATCH: u8 = 3;

// -------------------------------------------------------- capabilities

pub struct CapSet {
    pub bits: u64,
    pub effective: u64,
    pub ambient: u64,
}

/// The mask of capability `cap`.
pub open spec fn cap_bit(cap: u32) -> u64 {
    1u64 << cap
}

impl CapSet {
    pub fn new() -> (r: Self)
        ensures
            r == (CapSet { bits: 0, effective: 0, ambient: 0 }),
    {
        CapSet { bits: 0, effective: 0, ambient: 0 }
    }

    pub fn full() -> (r: Self)
        ensures
            r == (CapSet { bits: !0u64, effective: !0u64, ambient: 0 }),
    {
        CapSet { bits: !0u64, effective: !0u64, ambient: 0 }
    }

    /// Whether capability `cap` is effective; capabilities from 64 on
    /// never are.
    pub fn check(&self, cap: u32) -> (r: bool)
        ensures
            r == (cap < 64 && self.effective & cap_bit(cap) != 0),
    {
        if cap >= 64 {
            return false;
        }
        (self.effective & (1u64 << cap)) != 0
    }

    pub fn grant(&mut self, cap: u32)
        ensures
            cap < 64 ==> *final(self) == (CapSet {
                bits: old(self).bits | cap_bit(cap),
                effective: old(self).effective | cap_bit(cap),
                ambient: old(self).ambient,
            }),
            cap >= 64 ==> *final(self) == *old(self),
    {
        if cap < 64 {
            self.bits |= 1u64 << cap;
            self.effective |= 1u64 << cap;
        }
    }

    pub fn drop_cap(&mut self, cap: u32)
        ensures
            cap < 64 ==> *final(self) == (CapSet {
                bits: old(self).bits & !cap_bit(cap),
                effective: old(self).effective & !cap_bit(cap),
                ambient: old(self).ambient,
            }),
            cap >= 64 ==> *final(self) == *old(self),
    {
        if cap < 64 {
            self.bits &= !(1u64 << cap);
            self.effective &= !(1u64 << cap);
        }
    }

    /// What a child inherits: the parent's capabilities outside the
    /// inheritable mask, and its ambient set.
    pub fn inherit(parent: &CapSet) -> (r: CapSet)
        ensures
            r == (CapSet {
                bits: parent.bits & !INHERITABLE_MASK,
                effective: parent.effective & !INHERITABLE_MASK,
                ambient: parent.ambient,
            }),
    {
        let mask = INHERITABLE_MASK;
        CapSet { bits: parent.bits & !mask, effective: parent.effective & !mask, ambient: parent.ambient }
    }

    pub fn has_any(&self, mask: u64) -> (r: bool)
        ensures
            r == (self.effective & mask != 0),
    {
        (self.effective & mask) != 0
    }

    pub fn clear_ambient(&mut self)
        ensures
            *final(self) == (CapSet { ambient: 0, ..*old(self) }),
    {
        self.ambient = 0;
    }

    /// Adds `cap` to the ambient set when it is among the capabilities.
    pub fn raise_ambient(&mut self, cap: u32) -> (r: bool)
        ensures
            r == (cap < 64 && old(self).bits & cap_bit(cap) != 0),
            r ==> *final(self) == (CapSet { ambient: old(self).ambient | cap_bit(cap), ..*old(self) }),
            !r ==> *final(self) == *old(self),
    {
        if cap >= 64 {
            return false;
        }
        let bit = 1u64 << cap;
        if (self.bits & bit) != 0 {
            self.ambient |= bit;
            true
        } else {
            false
        }
    }
}

/// Setting bit `cap` of `e` makes it set, and clearing it again makes it clear.
proof fn lemma_set_clear_bit(e: u64, cap: u32)
    by (bit_vector)
    requires
        cap < 64,
    ensures
        (e | (1u64 << cap)) & (1u64 << cap) != 0,
        ((e | (1u64 << cap)) & !(1u64 << cap)) & (1u64 << cap) == 0,
{
}

/// Granting a capability makes it effective, and dropping it again makes
/// it ineffective.
pub proof fn law_grant_then_drop(c: CapSet, cap: u32)
    requires
        cap < 64,
    ensures
        (c.effective | cap_bit(cap)) & cap_bit(cap) != 0,
        ((c.effective | cap_bit(cap)) & !cap_bit(cap)) & cap_bit(cap) == 0,
{
    lemma_set_clear_bit(c.effective, cap);
}

// ------------------------------------------------------------- signals

pub struct SigAction {
    pub handler: usize,
    pub flags: u32,
    pub mask: u64,
}

pub struct SigSet {
    pub pending: u64,
    pub blocked: u64,
    pub actions: Vec<SigAction>,
}

/// The signals that can be neither blocked nor caught.
pub open spec fn unblockable() -> u64 {
    (1u64 << SIGKILL) | (1u64 << SIGSTOP)
}

/// The low `i` bits of a word (all of them from 64 on).
pub open spec fn low_mask64(i: u32) -> u64 {
    if i >= 64 {
        !0u64
    } else {
        ((1u64 << i) - 1) as u64
    }
}

/// How the low-bit masks grow one bit at a time over a word `a`, with `r`
/// the bits of `a` collected so far and `k` a bit below `i`.
proof fn lemma_low_mask_bits(a: u64, i: u32, r: u64, k: u32)
    by (bit_vector)
    requires
        i < 64,
    ensures
        low_mask64((i + 1) as u32) == low_mask64(i) | (1u64 << i),
        a & low_mask64(1) & !1u64 == 0,
        a & low_mask64(64) & !1u64 == a & !1u64,
        a == 0 ==> a & !1u64 == 0,
        r == a & low_mask64(i) & !1u64 && 1 <= i && a & (1u64 << i) != 0 ==> r | (1u64 << i) == a & low_mask64(
            (i + 1) as u32,
        ) & !1u64,
        r == a & low_mask64(i) & !1u64 && a & (1u64 << i) == 0 ==> r == a & low_mask64((i + 1) as u32) & !1u64,
        a & (1u64 << i) != 0 ==> (a >> i) & 1 == 1,
        1 <= k < i && a & low_mask64(i) & !1u64 == 0 ==> (a >> k) & 1 == 0,
{
}

/// `s` is `v` with bit 0 cleared.
pub open spec fn without_bit0(v: u64) -> u64 {
    v & !1u64
}

/// The lowest set bit of `v` above bit 0.
pub open spec fn lowest_signal(v: u64, i: u32) -> bool {
    &&& 1 <= i < 64
    &&& (v >> i) & 1 == 1
    &&& forall|k: u32| 1 <= k < i ==> #[trigger] ((v >> k) & 1) == 0
}

impl SigSet {
    pub fn new() -> (r: Self)
        ensures
            r.pending == 0,
            r.blocked == 0,
            r.actions@.len() == NSIG + 1,
            forall|i: int| 0 <= i <= NSIG ==> #[trigger] r.actions@[i] == (SigAction { handler: SIG_DFL, flags: 0, mask: 0 }),
    {
        let mut actions: Vec<SigAction> = Vec::new();
        let mut i: u32 = 0;
        while i <= NSIG
            invariant
                i <= NSIG + 1,
                actions@.len() == i,
                forall|k: int| 0 <= k < i ==> #[trigger] actions@[k] == (SigAction { handler: SIG_DFL, flags: 0, mask: 0 }),
            decreases NSIG + 1 - i,
        {
            actions.push(SigAction { handler: SIG_DFL, flags: 0, mask: 0 });
            i += 1;
        }
        SigSet { pending: 0, blocked: 0, actions }
    }

    pub fn sig_pending(&self, signo: u32) -> (r: bool)
        requires
            signo < 64,
        ensures
            r == (self.pending & (1u64 << signo) != 0),
    {
        (self.pending & (1u64 << signo)) != 0
    }

    pub fn sig_raise(&mut self, signo: u32)
        ensures
            final(self).blocked == old(self).blocked,
            final(self).actions@ == old(self).actions@,
            final(self).pending == if signo < NSIG { old(self).pending | (1u64 << signo) } else { old(self).pending },
    {
        if signo < NSIG {
            self.pending |= 1u64 << signo;
        }
    }

    /// The pending signals that are not blocked, without signal 0.
    pub fn coalesce_pending(&mut self) -> (r: u64)
        ensures
            r == without_bit0(old(self).pending & !old(self).blocked),
            final(self).pending == old(self).pending,
            final(self).blocked == old(self).blocked,
            final(self).actions@ == old(self).actions@,
    {
        let active = self.pending & !self.blocked;
        let mut result: u64 = 0;
        let mut i: u32 = 1;
        proof {
            lemma_low_mask_bits(active, 0, 0, 0);
        }
        while i < NSIG
            invariant
                1 <= i <= NSIG,
                result == active & low_mask64(i) & !1u64,
            decreases NSIG - i,
        {
            let bit = 1u64 << i;
            proof {
                lemma_low_mask_bits(active, i, result, 0);
            }
            if (active & bit) != 0 {
                result |= bit;
            }
            i += 1;
        }
        proof {
            lemma_low_mask_bits(active, 0, 0, 0);
        }
        result
    }

    pub fn sig_clear(&mut self, signo: u32)
        ensures
            final(self).blocked == old(self).blocked,
            final(self).actions@ == old(self).actions@,
            final(self).pending == if signo < NSIG { old(self).pending & !(1u64 << signo) } else { old(self).pending },
    {
        if signo < NSIG {
            self.pending &= !(1u64 << signo);
        }
    }

    /// Blocks the signals of `mask`, except the ones that cannot be.
    pub fn sig_block(&mut self, mask: u64)
        ensures
            final(self).pending == old(self).pending,
            final(self).actions@ == old(self).actions@,
            final(self).blocked == (old(self).blocked | mask) & !unblockable(),
    {
        self.blocked |= mask;
        self.blocked &= !((1u64 << SIGKILL) | (1u64 << SIGSTOP));
    }

    pub fn sig_unblock(&mut self, mask: u64)
        ensures
            final(self).pending == old(self).pending,
            final(self).actions@ == old(self).actions@,
            final(self).blocked == old(self).blocked & !mask,
    {
        self.blocked &= !mask;
    }

    pub fn sig_setmask(&mut self, mask: u64)
        ensures
            final(self).pending == old(self).pending,
            final(self).actions@ == old(self).actions@,
            final(self).blocked == mask & !unblockable(),
    {
        self.blocked = mask & !((1u64 << SIGKILL) | (1u64 << SIGSTOP));
    }

    /// The lowest pending, unblocked signal other than 0.
    pub fn deliverable(&self) -> (r: Option<u32>)
        ensures
            ({
                let a = self.pending & !self.blocked;
                match r {
                    Some(i) => lowest_signal(a, i),
                    None => without_bit0(a) == 0,
                }
            }),
    {
        let actionable = self.pending & !self.blocked;
        proof {
            lemma_low_mask_bits(actionable, 0, 0, 0);
        }
        if actionable == 0 {
            return None;
        }
        let mut i: u32 = 1;
        while i < NSIG
            invariant
                1 <= i <= NSIG,
                actionable == self.pending & !self.blocked,
                actionable & low_mask64(i) & !1u64 == 0,
            decreases NSIG - i,
        {
            proof {
                lemma_low_mask_bits(actionable, i, 0, 0);
            }
            if (actionable & (1u64 << i)) != 0 {
                assert forall|k: u32| 1 <= k < i implies #[trigger] ((actionable >> k) & 1) == 0 by {
                    lemma_low_mask_bits(actionable, i, 0, k);
                }
                return Some(i);
            }
            i += 1;
        }
        proof {
            lemma_low_mask_bits(actionable, 0, 0, 0);
        }
        None
    }

    /// Sets the action of `signo`; signals past the table, `SIGKILL` and
    /// `SIGSTOP` keep theirs.
    pub fn set_action(&mut self, signo: u32, action: SigAction)
        requires
            signo < NSIG && signo != SIGKILL && signo != SIGSTOP ==> signo < old(self).actions@.len(),
        ensures
            final(self).pending == old(self).pending,
            final(self).blocked == old(self).blocked,
            final(self).actions@ == if signo < NSIG && signo != SIGKILL && signo != SIGSTOP {
                old(self).actions@.update(signo as int, action)
            } else {
                old(self).actions@
            },
    {
        if signo < NSIG && signo != SIGKILL && signo != SIGSTOP {
            self.actions.set(signo as usize, action);
        }
    }

    /// The action of `signo`, or of signal 0 past the table.
    pub fn get_action(&self, signo: u32) -> (r: &SigAction)
        requires
            self.actions@.len() > 0,
        ensures
            *r == if (signo as int) < self.actions@.len() { self.actions@[signo as int] } else { self.actions@[0] },
    {
        if (signo as usize) < self.actions.len() {
            &self.actions[signo as usize]
        } else {
            &self.actions[0]
        }
    }

    pub fn is_ignored(&self, signo: u32) -> (r: bool)
        ensures
            r == ((signo as int) < self.actions@.len() && self.actions@[signo as int].handler == SIG_IGN),
    {
        if (signo as usize) < self.actions.len() {
            self.actions[signo as usize].handler == SIG_IGN
        } else {
            false
        }
    }

    /// Resets every caught signal (all but 0) to the default action, as on
    /// exec.
    pub fn clear_non_caught(&mut self)
        ensures
            final(self).pending == old(self).pending,
            final(self).blocked == old(self).blocked,
            final(self).actions@.len() == old(self).actions@.len(),
            forall|i: int| 0 <= i < old(self).actions@.len() ==> #[trigger] final(self).actions@[i] == if i >= 1
                && old(self).actions@[i].handler != SIG_DFL && old(self).actions@[i].handler != SIG_IGN {
                SigAction { handler: SIG_DFL, ..old(self).actions@[i] }
            } else {
                old(self).actions@[i]
            },
    {
        let ghost a = self.actions@;
        let mut i: usize = 1;
        while i < self.actions.len()
            invariant
                a == old(self).actions@,
                self.pending == old(self).pending,
                self.blocked == old(self).blocked,
                self.actions@.len() == a.len(),
                1 <= i,
                i <= a.len() || a.len() == 0,
                forall|k: int| 0 <= k < a.len() ==> #[trigger] self.actions@[k] == if 1 <= k < i && a[k].handler != SIG_DFL
                    && a[k].handler != SIG_IGN {
                    SigAction { handler: SIG_DFL, ..a[k] }
                } else {
                    a[k]
                },
            decreases self.actions.len() - i,
        {
            let h = self.actions[i].handler;
            if h != SIG_DFL && h != SIG_IGN {
                let act = SigAction { handler: SIG_DFL, flags: self.actions[i].flags, mask: self.actions[i].mask };
                self.actions.set(i, act);
            }
            i += 1;
        }
    }
}

/// Milliseconds since boot for the tick count `clk`.
pub fn up_ms(clk: usize) -> (r: usize)
    requires
        clk * USEC_TICK <= usize::MAX,
    ensures
        r == clk * USEC_TICK / 1000,
{
    clk * USEC_TICK / 1000
}

// -------------------------------------------------------------- timers

pub struct TimerEntry {
    pub deadline: usize,
    pub interval: usize,
    pub callback_id: usize,
    pub active: bool,
    pub repeat: bool,
}

/// A new timer: active, and repeating when it has an interval.
pub open spec fn new_timer(deadline: usize, interval: usize, cb_id: usize) -> TimerEntry {
    TimerEntry { deadline, interval, callback_id: cb_id, active: true, repeat: interval > 0 }
}

/// A fired timer after `reset` at time `now`: a repeating one is due again
/// one interval from now.
pub open spec fn reset_spec(e: TimerEntry, now: usize) -> TimerEntry {
    if e.repeat {
        TimerEntry { deadline: (now + e.interval) as usize, ..e }
    } else {
        TimerEntry { active: false, ..e }
    }
}

/// A fired timer as `advance` returns it: a repeating one is rearmed one
/// interval after `now`, any other is left as it was.
pub open spec fn rearm(e: TimerEntry, now: usize) -> TimerEntry {
    if e.repeat {
        reset_spec(e, now)
    } else {
        e
    }
}

impl TimerEntry {
    pub fn new(deadline: usize, interval: usize, cb_id: usize) -> (r: Self)
        ensures
            r == new_timer(deadline, interval, cb_id),
    {
        TimerEntry { deadline, interval, callback_id: cb_id, active: true, repeat: interval > 0 }
    }

    /// The timer is past its deadline at time `now`.
    pub fn expired(&self, now: usize) -> (r: bool)
        ensures
            r == (now > self.deadline),
    {
        now > self.deadline
    }

    /// Rearms a repeating timer one interval after `now`; any other timer
    /// stops.
    pub fn reset(&mut self, now: usize)
        requires
            old(self).repeat ==> now + old(self).interval <= usize::MAX,
        ensures
            *final(self) == reset_spec(*old(self), now),
    {
        if self.repeat {
            self.deadline = now + self.interval;
        } else {
            self.active = false;
        }
    }

    /// Time left until the deadline at time `now`.
    pub fn remaining(&self, now: usize) -> (r: usize)
        ensures
            r == if now >= self.deadline { 0 } else { self.deadline - now },
    {
        if now >= self.deadline { 0 } else { self.deadline - now }
    }

    pub fn cancel(&mut self)
        ensures
            *final(self) == (TimerEntry { active: false, ..*old(self) }),
    {
        self.active = false;
    }
}

pub struct TimerWheel {
    pub slots: Vec<Vec<TimerEntry>>,
    pub current_slot: usize,
}

/// The timers of a slot that fire at `now`: the active ones past their
/// deadline, in order.
pub open spec fn fired_of(s: Seq<TimerEntry>, now: usize) -> Seq<TimerEntry>
    decreases s.len(),
{
    if s.len() == 0 {
        s
    } else {
        let f = fired_of(s.drop_last(), now);
        if s.last().active && now > s.last().deadline { f.push(s.last()) } else { f }
    }
}

/// The timers of a slot that stay: the active ones not yet due.
pub open spec fn waiting_of(s: Seq<TimerEntry>, now: usize) -> Seq<TimerEntry>
    decreases s.len(),
{
    if s.len() == 0 {
        s
    } else {
        let w = waiting_of(s.drop_last(), now);
        if s.last().active && !(now > s.last().deadline) { w.push(s.last()) } else { w }
    }
}

/// The wheel's slots after the fired timers `f` (already reset) are put
/// back, in order: each repeating one as a new timer in the slot of its new
/// deadline.
pub open spec fn reschedule(slots: Seq<Seq<TimerEntry>>, f: Seq<TimerEntry>) -> Seq<Seq<TimerEntry>>
    decreases f.len(),
{
    if f.len() == 0 {
        slots
    } else {
        let s2 = reschedule(slots, f.drop_last());
        let t = f.last();
        if t.repeat {
            let k = (t.deadline % TIMER_WHEEL_SIZE) as int;
            s2.update(k, s2[k].push(new_timer(t.deadline, t.interval, t.callback_id)))
        } else {
            s2
        }
    }
}

/// The slot after `cur`, around the wheel.
pub open spec fn next_slot(cur: usize) -> int {
    (cur + 1) % (TIMER_WHEEL_SIZE as int)
}

/// The number of active timers in the slots below `n`.
pub open spec fn active_below(slots: Seq<Seq<TimerEntry>>, n: int) -> nat
    decreases n,
{
    if n <= 0 {
        0
    } else {
        active_below(slots, n - 1) + active_in(slots[n - 1])
    }
}

pub open spec fn active_in(s: Seq<TimerEntry>) -> nat
    decreases s.len(),
{
    if s.len() == 0 {
        0
    } else {
        active_in(s.drop_last()) + if s.last().active { 1nat } else { 0nat }
    }
}

/// `(i, k)` is the first active timer with callback `cb`, slot by slot.
pub open spec fn first_callback(slots: Seq<Seq<TimerEntry>>, cb: usize, i: int, k: int) -> bool {
    &&& 0 <= i < slots.len()
    &&& 0 <= k < slots[i].len()
    &&& slots[i][k].callback_id == cb && slots[i][k].active
    &&& forall|a: int, b: int|
        0 <= a < slots.len() && 0 <= b < slots[a].len() && (a < i || (a == i && b < k)) ==> !(
        #[trigger] slots[a][b].callback_id == cb && slots[a][b].active)
}

impl TimerWheel {
    pub open spec fn view_slots(&self) -> Seq<Seq<TimerEntry>> {
        Seq::new(self.slots@.len(), |i: int| self.slots@[i]@)
    }

    pub open spec fn wf(&self) -> bool {
        &&& self.slots@.len() == TIMER_WHEEL_SIZE
        &&& self.current_slot < TIMER_WHEEL_SIZE
    }

    pub fn new() -> (r: Self)
        ensures
            r.wf(),
            r.current_slot == 0,
            r.view_slots() == Seq::new(TIMER_WHEEL_SIZE as nat, |i: int| Seq::<TimerEntry>::empty()),
    {
        let mut slots: Vec<Vec<TimerEntry>> = Vec::new();
        let mut i: usize = 0;
        while i < TIMER_WHEEL_SIZE
            invariant
                i <= TIMER_WHEEL_SIZE,
                slots@.len() == i,
                forall|k: int| 0 <= k < i ==> (#[trigger] slots@[k])@ == Seq::<TimerEntry>::empty(),
            decreases TIMER_WHEEL_SIZE - i,
        {
            slots.push(Vec::new());
            i += 1;
        }
        let r = TimerWheel { slots, current_slot: 0 };
        assert(r.view_slots() =~= Seq::new(TIMER_WHEEL_SIZE as nat, |i: int| Seq::<TimerEntry>::empty()));
        r
    }

    /// Files the timer in the slot of its deadline.
    pub fn add_timer(&mut self, entry: TimerEntry)
        requires
            old(self).wf(),
        ensures
            final(self).wf(),
            final(self).current_slot == old(self).current_slot,
            final(self).view_slots() == old(self).view_slots().update(
                (entry.deadline % TIMER_WHEEL_SIZE) as int,
                old(self).view_slots()[(entry.deadline % TIMER_WHEEL_SIZE) as int].push(entry),
            ),
    {
        let slot = entry.deadline % TIMER_WHEEL_SIZE;
        let ghost before = self.view_slots();
        self.slots[slot].push(entry);
        assert(self.view_slots() =~= before.update(slot as int, before[slot as int].push(entry)));
    }

    /// Moves to the next slot and fires its due timers at time `now`: they
    /// are returned in order (reset), the slot keeps its active timers that
    /// are not due, and each repeating fired timer is filed again as a new
    /// timer one interval after `now`.
    pub fn advance(&mut self, now: usize) -> (r: Vec<TimerEntry>)
        requires
            old(self).wf(),
            forall|k: int| 0 <= k < old(self).view_slots()[next_slot(old(self).current_slot)].len()
                ==> #[trigger] old(self).view_slots()[next_slot(old(self).current_slot)][k].repeat
                ==> now + old(self).view_slots()[next_slot(old(self).current_slot)][k].interval
                <= usize::MAX,
        ensures
            final(self).wf(),
            ({
                let c = next_slot(old(self).current_slot);
                let s = old(self).view_slots()[c];
                let f = fired_of(s, now).map_values(|e: TimerEntry| rearm(e, now));
                &&& final(self).current_slot == c
                &&& r@ == f
                &&& final(self).view_slots() == reschedule(old(self).view_slots().update(c, waiting_of(s, now)), f)
            }),
    {
        self.current_slot = (self.current_slot + 1) % TIMER_WHEEL_SIZE;
        let c = self.current_slot;
        let ghost slots0 = self.view_slots();
        let ghost s = slots0[c as int];
        let mut fired: Vec<TimerEntry> = Vec::new();
        let mut remaining: Vec<TimerEntry> = Vec::new();
        let mut k: usize = 0;
        let n = self.slots[c].len();
        while k < n
            invariant
                self.wf(),
                self.current_slot == c,
                self.view_slots() == slots0,
                s == slots0[c as int],
                n == s.len(),
                k <= n,
                fired@ == fired_of(s.take(k as int), now),
                remaining@ == waiting_of(s.take(k as int), now),
            decreases n - k,
        {
            proof {
                assert(s.take(k as int + 1).drop_last() =~= s.take(k as int));
                assert(s.take(k as int + 1).last() == s[k as int]);
            }
            let e = &self.slots[c][k];
            let copy = TimerEntry {
                deadline: e.deadline,
                interval: e.interval,
                callback_id: e.callback_id,
                active: e.active,
                repeat: e.repeat,
            };
            if copy.active && copy.expired(now) {
                fired.push(copy);
            } else if copy.active {
                remaining.push(copy);
            }
            k += 1;
        }
        assert(s.take(n as int) =~= s);
        let ghost cleared = slots0.update(c as int, waiting_of(s, now));
        self.slots.set(c, remaining);
        assert(self.view_slots() =~= cleared);
        let ghost fs = fired@;
        proof {
            lemma_fired_props(s, now);
            assert(s == old(self).view_slots()[next_slot(old(self).current_slot)]);
            assert forall|q: int| 0 <= q < fs.len() && (#[trigger] fs[q]).repeat implies now + fs[q].interval <= usize::MAX by {
                let j = choose|j: int| 0 <= j < s.len() && s[j] == fs[q];
                assert(old(self).view_slots()[next_slot(old(self).current_slot)][j] == fs[q]);
            }
        }
        let mut out: Vec<TimerEntry> = Vec::new();
        let mut i: usize = 0;
        while i < fired.len()
            invariant
                self.wf(),
                self.current_slot == c,
                fired@ == fs,
                fs == fired_of(s, now),
                forall|q: int| 0 <= q < fs.len() ==> (#[trigger] fs[q]).repeat ==> now + fs[q].interval <= usize::MAX,
                i <= fs.len(),
                out@ == fs.take(i as int).map_values(|e: TimerEntry| rearm(e, now)),
                self.view_slots() == reschedule(cleared, out@),
            decreases fired.len() - i,
        {
            let mut t = TimerEntry {
                deadline: fired[i].deadline,
                interval: fired[i].interval,
                callback_id: fired[i].callback_id,
                active: fired[i].active,
                repeat: fired[i].repeat,
            };
            if t.repeat {
                t.reset(now);
                let new_slot = t.deadline % TIMER_WHEEL_SIZE;
                let clone = TimerEntry::new(t.deadline, t.interval, t.callback_id);
                let ghost before = self.view_slots();
                self.slots[new_slot].push(clone);
                assert(self.view_slots() =~= before.update(new_slot as int, before[new_slot as int].push(clone)));
            }
            let ghost prev_out = out@;
            out.push(t);
            proof {
                assert(out@.drop_last() == prev_out);
                assert(fs.take(i as int + 1).map_values(|e: TimerEntry| rearm(e, now)) =~= prev_out.push(rearm(fs[i as int], now)));
            }
            i += 1;
        }
        assert(fs.take(i as int) =~= fs);
        out
    }

    /// Stops the first active timer with callback `cb_id`, slot by slot.
    pub fn cancel(&mut self, cb_id: usize) -> (r: bool)
        ensures
            final(self).current_slot == old(self).current_slot,
            final(self).slots@.len() == old(self).slots@.len(),
            r == exists|i: int, k: int| first_callback(old(self).view_slots(), cb_id, i, k),
            r ==> exists|i: int, k: int|
                #[trigger] first_callback(old(self).view_slots(), cb_id, i, k) && final(self).view_slots()
                    == old(self).view_slots().update(
                    i,
                    old(self).view_slots()[i].update(k, TimerEntry { active: false, ..old(self).view_slots()[i][k] }),
                ),
            !r ==> final(self).view_slots() == old(self).view_slots(),
    {
        let ghost v = self.view_slots();
        let mut i: usize = 0;
        while i < self.slots.len()
            invariant
                v == old(self).view_slots(),
                self.view_slots() == v,
                self.current_slot == old(self).current_slot,
                self.slots@.len() == v.len(),
                i <= v.len(),
                forall|a: int, b: int| 0 <= a < i && 0 <= b < v[a].len() ==> !(#[trigger] v[a][b].callback_id == cb_id && v[a][b].active),
            decreases self.slots.len() - i,
        {
            let mut k: usize = 0;
            while k < self.slots[i].len()
                invariant
                    v == old(self).view_slots(),
                    self.view_slots() == v,
                    self.current_slot == old(self).current_slot,
                    self.slots@.len() == v.len(),
                    i < v.len(),
                    k <= v[i as int].len(),
                    forall|a: int, b: int| 0 <= a < i && 0 <= b < v[a].len() ==> !(#[trigger] v[a][b].callback_id == cb_id && v[a][b].active),
                    forall|b: int| 0 <= b < k ==> !(#[trigger] v[i as int][b].callback_id == cb_id && v[i as int][b].active),
                decreases self.slots[i as int]@.len() - k,
            {
                if self.slots[i][k].callback_id == cb_id && self.slots[i][k].active {
                    let ghost before = self.view_slots();
                    self.slots[i][k].active = false;
                    proof {
                        assert(first_callback(v, cb_id, i as int, k as int));
                        assert(self.view_slots() =~= v.update(
                            i as int,
                            v[i as int].update(k as int, TimerEntry { active: false, ..v[i as int][k as int] }),
                        ));
                    }
                    return true;
                }
                k += 1;
            }
            i += 1;
        }
        proof {
            assert forall|a: int, b: int| !first_callback(v, cb_id, a, b) by {
                if first_callback(v, cb_id, a, b) {
                    assert(!(v[a][b].callback_id == cb_id && v[a][b].active));
                }
            }
        }
        false
    }

    /// The number of active timers.
    pub fn active_count(&self) -> (r: usize)
        requires
            active_below(self.view_slots(), self.view_slots().len() as int) <= usize::MAX,
        ensures
            r == active_below(self.view_slots(), self.view_slots().len() as int),
    {
        let ghost v = self.view_slots();
        let mut n: usize = 0;
        let mut i: usize = 0;
        while i < self.slots.len()
            invariant
                v == self.view_slots(),
                i <= v.len(),
                active_below(v, v.len() as int) <= usize::MAX,
                n == active_below(v, i as int),
            decreases self.slots.len() - i,
        {
            let slot = &self.slots[i];
            let mut k: usize = 0;
            proof {
                lemma_active_below_mono(v, i as int + 1, v.len() as int);
            }
            while k < slot.len()
                invariant
                    v == self.view_slots(),
                    i < v.len(),
                    slot@ == v[i as int],
                    k <= slot@.len(),
                    active_below(v, i as int + 1) <= usize::MAX,
                    n == active_below(v, i as int) + active_in(slot@.take(k as int)),
                decreases slot.len() - k,
            {
                proof {
                    assert(slot@.take(k as int + 1).drop_last() =~= slot@.take(k as int));
                    lemma_active_in_prefix(slot@, k as int + 1);
                }
                if slot[k].active {
                    n += 1;
                }
                k += 1;
            }
            assert(slot@.take(k as int) =~= slot@);
            i += 1;
        }
        n
    }
}

proof fn lemma_active_below_mono(v: Seq<Seq<TimerEntry>>, a: int, b: int)
    requires
        0 <= a <= b <= v.len(),
    ensures
        active_below(v, a) <= active_below(v, b),
    decreases b - a,
{
    if a < b {
        lemma_active_below_mono(v, a, b - 1);
    }
}

proof fn lemma_active_in_prefix(s: Seq<TimerEntry>, k: int)
    requires
        0 <= k <= s.len(),
    ensures
        active_in(s.take(k)) <= active_in(s),
    decreases s.len() - k,
{
    if k < s.len() {
        lemma_active_in_prefix(s, k + 1);
        assert(s.take(k + 1).drop_last() =~= s.take(k));
    } else {
        assert(s.take(k) =~= s);
    }
}

/// The fired timers are timers of the slot.
proof fn lemma_fired_props(s: Seq<TimerEntry>, now: usize)
    ensures
        forall|q: int| 0 <= q < fired_of(s, now).len() ==> s.contains(#[trigger] fired_of(s, now)[q]),
    decreases s.len(),
{
    if s.len() > 0 {
        lemma_fired_props(s.drop_last(), now);
        let f = fired_of(s.drop_last(), now);
        assert forall|q: int| 0 <= q < f.len() implies s.contains(#[trigger] f[q]) by {
            let j = choose|j: int| 0 <= j < s.drop_last().len() && s.drop_last()[j] == f[q];
            assert(s[j] == f[q]);
        }
        assert(s[s.len() - 1] == s.last());
    }
}

// ----------------------------------------------------------- scheduling

#[derive(Clone, Copy)]
pub struct SchedulePolicy {
    pub policy: u8,
    pub prio: i32,
    pub nice: i32,
    pub time_slice: usize,
    pub vruntime: u64,
}

/// The load weight of a nice level.
pub open spec fn weight_of(nice: i32) -> u64 {
    if nice < -10 {
        88761
    } else if nice < 0 {
        29154
    } else if nice == 0 {
        1024
    } else if nice < 10 {
        335
    } else {
        110
    }
}

pub open spec fn default_policy() -> SchedulePolicy {
    SchedulePolicy { policy: SCHED_NORMAL, prio: PRIO_DEFAULT, nice: 0, time_slice: 10, vruntime: 0 }
}

impl SchedulePolicy {
    pub fn new() -> (r: Self)
        ensures
            r == default_policy(),
    {
        SchedulePolicy { policy: SCHED_NORMAL, prio: PRIO_DEFAULT, nice: 0, time_slice: 10, vruntime: 0 }
    }

    /// A normal policy with priority and nice level `prio`, whose time
    /// slice shrinks as the priority grows.
    pub fn with_prio(prio: i32) -> (r: Self)
        requires
            0 <= prio <= 20,
        ensures
            r == (SchedulePolicy { policy: SCHED_NORMAL, prio, nice: prio, time_slice: (20 - prio) as usize, vruntime: 0 }),
    {
        SchedulePolicy { policy: SCHED_NORMAL, prio, nice: prio, time_slice: 20 - prio as usize, vruntime: 0 }
    }

    pub fn weight(&self) -> (r: u64)
        ensures
            r == weight_of(self.nice),
    {
        let n = self.nice;
        if n < -10 {
            88761
        } else if n < 0 {
            29154
        } else if n == 0 {
            1024
        } else if n < 10 {
            335
        } else {
            110
        }
    }
}

pub struct RunQueue {
    pub queue: Vec<(usize, SchedulePolicy)>,
    pub current: Option<usize>,
    pub preempt_count: usize,
}

/// The key `enqueue` sorts by: priority and nice level, plus the virtual
/// runtime read as a signed word, minus the weight.
pub open spec fn enq_base(p: SchedulePolicy) -> int {
    p.prio * 1000 - p.nice * 50 + (p.vruntime as i64)
}

pub open spec fn enq_score(p: SchedulePolicy) -> int {
    enq_base(p) - weight_of(p.nice)
}

/// The key and its partial sum fit a signed word.
pub open spec fn enq_fits(p: SchedulePolicy) -> bool {
    &&& i64::MIN <= enq_base(p) <= i64::MAX
    &&& i64::MIN <= enq_score(p) <= i64::MAX
}

/// The key `dequeue` takes the least of.
pub open spec fn deq_score(p: SchedulePolicy) -> int {
    p.prio * 1000 + (p.vruntime as i64) - weight_of(p.nice)
}

pub open spec fn deq_fits(p: SchedulePolicy) -> bool {
    &&& i64::MIN <= p.prio * 1000 + (p.vruntime as i64) <= i64::MAX
    &&& i64::MIN <= deq_score(p) <= i64::MAX
}

/// The key `pick_next` takes the least of.
pub open spec fn pick_score(p: SchedulePolicy) -> int {
    p.prio * 100 + (p.vruntime as i64)
}

pub open spec fn sorted_by_enq(s: Seq<(usize, SchedulePolicy)>) -> bool {
    forall|a: int, b: int| 0 <= a < b < s.len() ==> enq_score((#[trigger] s[a]).1) <= enq_score((#[trigger] s[b]).1)
}

/// `s` is `orig` rearranged by `perm` (entry `i` of `s` is entry
/// `perm[i]` of `orig`, each used once), and entries of `s` with equal
/// `enq_score` stand in the order they had in `orig`.
pub open spec fn stable_perm(orig: Seq<(usize, SchedulePolicy)>, s: Seq<(usize, SchedulePolicy)>, perm: Seq<int>) -> bool {
    &&& perm.len() == s.len()
    &&& s.len() == orig.len()
    &&& forall|i: int| 0 <= i < s.len() ==> 0 <= #[trigger] perm[i] < orig.len() && s[i] == orig[perm[i]]
    &&& forall|i: int, j: int| #![trigger perm[i], perm[j]] 0 <= i < j < s.len() ==> perm[i] != perm[j]
    &&& forall|i: int, j: int|
        #![trigger perm[i], perm[j]]
        0 <= i < j < s.len() && enq_score(s[i].1) == enq_score(s[j].1) ==> perm[i] < perm[j]
}

pub open spec fn sorted_by_vruntime(s: Seq<(usize, SchedulePolicy)>) -> bool {
    forall|a: int, b: int| 0 <= a < b < s.len() ==> (#[trigger] s[a]).1.vruntime <= (#[trigger] s[b]).1.vruntime
}

/// `i` is the first entry with the least value of `key`.
pub open spec fn first_min(s: Seq<(usize, SchedulePolicy)>, key: spec_fn(SchedulePolicy) -> int, i: int) -> bool {
    &&& 0 <= i < s.len()
    &&& forall|k: int| 0 <= k < i ==> key((#[trigger] s[k]).1) > key(s[i].1)
    &&& forall|k: int| i <= k < s.len() ==> key((#[trigger] s[k]).1) >= key(s[i].1)
}

pub open spec fn pick_fits(p: SchedulePolicy) -> bool {
    i64::MIN <= pick_score(p) <= i64::MAX
}

/// `i` is the first entry with the least `deq_score`.
pub open spec fn deq_first_min(s: Seq<(usize, SchedulePolicy)>, i: int) -> bool {
    first_min(s, |p: SchedulePolicy| deq_score(p), i)
}

/// `i` is the first entry with the least `pick_score`.
pub open spec fn pick_first_min(s: Seq<(usize, SchedulePolicy)>, i: int) -> bool {
    first_min(s, |p: SchedulePolicy| pick_score(p), i)
}

/// The entry `pick_next` chooses runs least among those of its priority:
/// no task of the same priority has less virtual runtime (read as a signed
/// word), and no task before it has both a priority and a runtime at most
/// its own. Each step of priority weighs 100 units of runtime: a task of
/// better (lower) priority is passed over only when it has run at least
/// 100 units more per step, and one of worse priority is chosen only when
/// it has run at least 100 units less per step.
pub proof fn law_pick_least_runtime(s: Seq<(usize, SchedulePolicy)>, i: int)
    requires
        pick_first_min(s, i),
    ensures
        forall|k: int|
            0 <= k < s.len() && (#[trigger] s[k]).1.prio == s[i].1.prio ==> (s[i].1.vruntime as i64) <= (
            s[k].1.vruntime as i64),
        forall|k: int|
            0 <= k < i ==> !((#[trigger] s[k]).1.prio <= s[i].1.prio && (s[k].1.vruntime as i64) <= (
            s[i].1.vruntime as i64)),
        forall|k: int|
            0 <= k < s.len() ==> ((#[trigger] s[k]).1.vruntime as i64) - (s[i].1.vruntime as i64) >= 100 * (
            s[i].1.prio - s[k].1.prio),
{
    assert forall|k: int|
        0 <= k < s.len() implies ((#[trigger] s[k]).1.vruntime as i64) - (s[i].1.vruntime as i64) >= 100 * (
        s[i].1.prio - s[k].1.prio) by {
        if k < i {
            assert(pick_score(s[k].1) > pick_score(s[i].1));
        } else {
            assert(pick_score(s[k].1) >= pick_score(s[i].1));
        }
    }
    assert forall|k: int|
        0 <= k < s.len() && (#[trigger] s[k]).1.prio == s[i].1.prio implies (s[i].1.vruntime as i64) <= (
        s[k].1.vruntime as i64) by {
        if k < i {
            assert(pick_score(s[k].1) > pick_score(s[i].1));
        } else {
            assert(pick_score(s[k].1) >= pick_score(s[i].1));
        }
    }
    assert forall|k: int| 0 <= k < i implies !((#[trigger] s[k]).1.prio <= s[i].1.prio && (s[k].1.vruntime as i64) <= (
        s[i].1.vruntime as i64)) by {
        assert(pick_score(s[k].1) > pick_score(s[i].1));
    }
}

fn enq_key(p: &SchedulePolicy) -> (r: i64)
    requires
        enq_fits(*p),
    ensures
        r == enq_score(*p),
{
    let wa = p.weight();
    let prio_a = p.prio as i64 * 1000 - p.nice as i64 * 50;
    let vrt_a = p.vruntime as i64;
    prio_a + vrt_a - wa as i64
}

fn deq_key(p: &SchedulePolicy) -> (r: i64)
    requires
        deq_fits(*p),
    ensures
        r == deq_score(*p),
{
    p.prio as i64 * 1000 + p.vruntime as i64 - p.weight() as i64
}

fn pick_key(p: &SchedulePolicy) -> (r: i64)
    requires
        pick_fits(*p),
    ensures
        r == pick_score(*p),
{
    p.prio as i64 * 100 + p.vruntime as i64
}

/// Swapping two entries keeps the same entries.
proof fn lemma_swap_multiset<T>(s: Seq<T>, i: int, j: int)
    requires
        0 <= i < s.len(),
        0 <= j < s.len(),
    ensures
        s.update(i, s[j]).update(j, s[i]).to_multiset() == s.to_multiset(),
{
    broadcast use vstd::seq_lib::to_multiset_update;
    broadcast use vstd::seq_lib::to_multiset_contains;
    broadcast use vstd::multiset::group_multiset_axioms;
    let m = s.to_multiset();
    let s1 = s.update(i, s[j]);
    let m1 = m.insert(s[j]).remove(s[i]);
    assert(s1.to_multiset() == m1);
    assert(s1[j] == s[j]);
    let m2 = m1.insert(s[i]).remove(s[j]);
    assert(s1.update(j, s[i]).to_multiset() == m2);
    assert(s.contains(s[i]));
    assert(m.count(s[i]) >= 1);
    assert forall|x: T| m2.count(x) == m.count(x) by {
        if x == s[i] && x == s[j] {
        } else if x == s[i] {
        } else if x == s[j] {
        }
    }
    assert(m2 =~= m);
}

impl RunQueue {
    pub fn new() -> (r: Self)
        ensures
            r.queue@ == Seq::<(usize, SchedulePolicy)>::empty(),
            r.current is None,
            r.preempt_count == 0,
    {
        RunQueue { queue: Vec::new(), current: None, preempt_count: 0 }
    }

    /// Adds the task and sorts the queue by `enq_score` (bubble sort, so
    /// entries with equal keys keep their order).
    pub fn enqueue(&mut self, task_id: usize, policy: SchedulePolicy)
        requires
            old(self).queue@.len() > 0 ==> forall|i: int|
                0 <= i < old(self).queue@.push((task_id, policy)).len() ==> enq_fits(
                    (#[trigger] old(self).queue@.push((task_id, policy))[i]).1,
                ),
        ensures
            final(self).queue@.to_multiset() == old(self).queue@.push((task_id, policy)).to_multiset(),
            final(self).queue@.len() == old(self).queue@.len() + 1,
            old(self).queue@.len() > 0 ==> sorted_by_enq(final(self).queue@),
            old(self).queue@.len() > 0 ==> exists|perm: Seq<int>| #[trigger] stable_perm(
                old(self).queue@.push((task_id, policy)),
                final(self).queue@,
                perm,
            ),
            old(self).queue@.len() == 0 ==> final(self).queue@ == seq![(task_id, policy)],
            final(self).current == old(self).current,
            final(self).preempt_count == old(self).preempt_count,
    {
        self.queue.push((task_id, policy));
        let len = self.queue.len();
        if len > 1 {
            let ghost m0 = self.queue@.to_multiset();
            let ghost orig = self.queue@;
            let ghost mut perm: Seq<int> = Seq::new(len as nat, |i: int| i);
            let mut pass: usize = 0;
            while pass < len
                invariant
                    orig == old(self).queue@.push((task_id, policy)),
                    stable_perm(orig, self.queue@, perm),
                    1 < len,
                    self.queue@.len() == len,
                    self.queue@.to_multiset() == m0,
                    m0 == old(self).queue@.push((task_id, policy)).to_multiset(),
                    self.current == old(self).current,
                    self.preempt_count == old(self).preempt_count,
                    forall|i: int| 0 <= i < len ==> enq_fits((#[trigger] self.queue@[i]).1),
                    pass <= len,
                    forall|a: int, b: int| len - pass <= a < b < len ==> enq_score((#[trigger] self.queue@[a]).1)
                        <= enq_score((#[trigger] self.queue@[b]).1),
                    forall|a: int, b: int| 0 <= a < len - pass <= b < len ==> enq_score((#[trigger] self.queue@[a]).1)
                        <= enq_score((#[trigger] self.queue@[b]).1),
                ensures
                    stable_perm(orig, self.queue@, perm),
                    self.queue@.len() == len,
                    self.queue@.to_multiset() == m0,
                    self.current == old(self).current,
                    self.preempt_count == old(self).preempt_count,
                    sorted_by_enq(self.queue@),
                decreases len - pass,
            {
                let mut swapped = false;
                let mut j: usize = 0;
                let end = len - 1 - pass;
                while j < end
                    invariant
                        orig == old(self).queue@.push((task_id, policy)),
                        stable_perm(orig, self.queue@, perm),
                        1 < len,
                        end == len - 1 - pass,
                        pass < len,
                        self.queue@.len() == len,
                        self.queue@.to_multiset() == m0,
                        self.current == old(self).current,
                        self.preempt_count == old(self).preempt_count,
                        forall|i: int| 0 <= i < len ==> enq_fits((#[trigger] self.queue@[i]).1),
                        j <= end,
                        forall|a: int, b: int| len - pass <= a < b < len ==> enq_score((#[trigger] self.queue@[a]).1)
                            <= enq_score((#[trigger] self.queue@[b]).1),
                        forall|a: int, b: int| 0 <= a < len - pass <= b < len ==> enq_score((#[trigger] self.queue@[a]).1)
                            <= enq_score((#[trigger] self.queue@[b]).1),
                        forall|a: int| 0 <= a <= j ==> enq_score((#[trigger] self.queue@[a]).1) <= enq_score(self.queue@[j as int].1),
                        !swapped ==> forall|a: int, b: int| 0 <= a < b <= j ==> enq_score((#[trigger] self.queue@[a]).1)
                            <= enq_score((#[trigger] self.queue@[b]).1),
                    decreases end - j,
                {
                    let ka = enq_key(&self.queue[j].1);
                    let kb = enq_key(&self.queue[j + 1].1);
                    if ka > kb {
                        let x = self.queue[j];
                        let y = self.queue[j + 1];
                        let ghost before = self.queue@;
                        self.queue.set(j, y);
                        self.queue.set(j + 1, x);
                        proof {
                            lemma_swap_multiset(before, j as int, j as int + 1);
                            assert(self.queue@ == before.update(j as int, before[j + 1]).update(j as int + 1, before[j as int]));
                            let p0 = perm;
                            perm = p0.update(j as int, p0[j + 1]).update(j as int + 1, p0[j as int]);
                            let q = self.queue@;
                            assert forall|a: int, b: int| #![trigger perm[a], perm[b]] 0 <= a < b < q.len() implies perm[a] != perm[b] by {
                                let pa = if a == j { j + 1 } else if a == j + 1 { j as int } else { a };
                                let pb = if b == j { j + 1 } else if b == j + 1 { j as int } else { b };
                                assert(perm[a] == p0[pa] && perm[b] == p0[pb]);
                                if pa < pb {
                                    assert(p0[pa] != p0[pb]);
                                } else {
                                    assert(p0[pb] != p0[pa]);
                                }
                            }
                            assert forall|a: int, b: int|
                                #![trigger perm[a], perm[b]]
                                0 <= a < b < q.len() && enq_score(q[a].1) == enq_score(q[b].1) implies perm[a] < perm[b] by {
                                let pa = if a == j { j + 1 } else if a == j + 1 { j as int } else { a };
                                let pb = if b == j { j + 1 } else if b == j + 1 { j as int } else { b };
                                assert(perm[a] == p0[pa] && perm[b] == p0[pb]);
                                assert(q[a] == before[pa] && q[b] == before[pb]);
                                assert(pa < pb);
                                assert(p0[pa] < p0[pb]);
                            }
                            assert(stable_perm(orig, self.queue@, perm));
                        }
                        swapped = true;
                    }
                    j += 1;
                }
                if !swapped {
                    break;
                }
                pass += 1;
            }
        } else {
            assert(old(self).queue@.len() == 0);
            assert(self.queue@ =~= seq![(task_id, policy)]);
        }
    }

    /// Takes out the first task with the least `deq_score`.
    pub fn dequeue(&mut self) -> (r: Option<(usize, SchedulePolicy)>)
        requires
            forall|i: int| 0 <= i < old(self).queue@.len() ==> deq_fits((#[trigger] old(self).queue@[i]).1),
        ensures
            final(self).current == old(self).current,
            final(self).preempt_count == old(self).preempt_count,
            old(self).queue@.len() == 0 ==> r is None && final(self).queue@ == old(self).queue@,
            old(self).queue@.len() > 0 ==> exists|i: int|
                #[trigger] deq_first_min(old(self).queue@, i) && r == Some(old(self).queue@[i])
                    && final(self).queue@ == old(self).queue@.remove(i),
    {
        if self.queue.len() == 0 {
            return None;
        }
        let mut best_idx: usize = 0;
        let mut best_score: i64 = i64::MAX;
        let mut idx: usize = 0;
        while idx < self.queue.len()
            invariant
                self.queue@ == old(self).queue@,
                self.queue@.len() > 0,
                idx <= self.queue@.len(),
                forall|i: int| 0 <= i < self.queue@.len() ==> deq_fits((#[trigger] self.queue@[i]).1),
                best_idx < self.queue@.len(),
                idx > 0 ==> best_idx < idx && best_score == deq_score(self.queue@[best_idx as int].1),
                idx == 0 ==> best_idx == 0 && best_score == i64::MAX,
                forall|k: int| 0 <= k < best_idx ==> deq_score((#[trigger] self.queue@[k]).1) > best_score,
                forall|k: int| best_idx <= k < idx ==> deq_score((#[trigger] self.queue@[k]).1) >= best_score,
            decreases self.queue.len() - idx,
        {
            let s = deq_key(&self.queue[idx].1);
            if s < best_score {
                best_score = s;
                best_idx = idx;
            } else if idx == 0 {
                best_score = s;
            }
            idx += 1;
        }
        assert(deq_first_min(old(self).queue@, best_idx as int));
        Some(self.queue.remove(best_idx))
    }

    /// The task with the least `pick_score` (the first such), left queued.
    pub fn pick_next(&self) -> (r: Option<usize>)
        requires
            forall|i: int| 0 <= i < self.queue@.len() ==> pick_fits((#[trigger] self.queue@[i]).1),
        ensures
            self.queue@.len() == 0 ==> r is None,
            self.queue@.len() > 0 ==> exists|i: int|
                #[trigger] pick_first_min(self.queue@, i) && r == Some(self.queue@[i].0),
    {
        if self.queue.len() == 0 {
            return None;
        }
        let mut best: usize = 0;
        let mut bs: i64 = pick_key(&self.queue[0].1);
        let mut idx: usize = 1;
        while idx < self.queue.len()
            invariant
                self.queue@.len() > 0,
                1 <= idx <= self.queue@.len(),
                best < idx,
                forall|i: int| 0 <= i < self.queue@.len() ==> pick_fits((#[trigger] self.queue@[i]).1),
                bs == pick_score(self.queue@[best as int].1),
                forall|k: int| 0 <= k < best ==> pick_score((#[trigger] self.queue@[k]).1) > bs,
                forall|k: int| best <= k < idx ==> pick_score((#[trigger] self.queue@[k]).1) >= bs,
            decreases self.queue.len() - idx,
        {
            let s = pick_key(&self.queue[idx].1);
            if s < bs {
                bs = s;
                best = idx;
            }
            idx += 1;
        }
        assert(pick_first_min(self.queue@, best as int));
        Some(self.queue[best].0)
    }

    pub fn set_current(&mut self, id: usize)
        ensures
            final(self).current == Some(id),
            final(self).queue@ == old(self).queue@,
            final(self).preempt_count == old(self).preempt_count,
    {
        self.current = Some(id);
    }

    pub fn clear_current(&mut self)
        ensures
            final(self).current is None,
            final(self).queue@ == old(self).queue@,
            final(self).preempt_count == old(self).preempt_count,
    {
        self.current = None;
    }

    pub fn len(&self) -> (r: usize)
        ensures
            r == self.queue@.len(),
    {
        self.queue.len()
    }

    pub fn preempt_disable(&mut self)
        ensures
            final(self).preempt_count == vstd::wrapping::usize_specs::wrapping_add(old(self).preempt_count, 1),
            final(self).queue@ == old(self).queue@,
            final(self).current == old(self).current,
    {
        self.preempt_count = self.preempt_count.wrapping_add(1);
    }

    pub fn preempt_enable(&mut self)
        ensures
            final(self).preempt_count == vstd::wrapping::usize_specs::wrapping_sub(old(self).preempt_count, 1),
            final(self).queue@ == old(self).queue@,
            final(self).current == old(self).current,
    {
        self.preempt_count = self.preempt_count.wrapping_sub(1);
    }

    pub fn preemptible(&self) -> (r: bool)
        ensures
            r == (self.preempt_count == 0),
    {
        self.preempt_count == 0
    }

    /// Puts the current task back at the end of the queue with the default
    /// policy; false when there is none.
    pub fn yield_current(&mut self) -> (r: bool)
        ensures
            final(self).current is None,
            final(self).preempt_count == old(self).preempt_count,
            r == old(self).current is Some,
            r ==> final(self).queue@ == old(self).queue@.push((old(self).current.unwrap(), default_policy())),
            !r ==> final(self).queue@ == old(self).queue@,
    {
        let cur = self.current.take();
        match cur {
            Some(id) => {
                let policy = SchedulePolicy::new();
                self.queue.push((id, policy));
                true
            }
            None => false,
        }
    }
}

/// An entry after `rebalance` with `tick`: its virtual runtime grows by
/// `tick * 1024 / weight`, wrapping.
pub open spec fn bumped(e: (usize, SchedulePolicy), tick: u64) -> (usize, SchedulePolicy) {
    (e.0, SchedulePolicy {
        vruntime: vstd::wrapping::u64_specs::wrapping_add(e.1.vruntime, ((tick * 1024) / (weight_of(e.1.nice) as int)) as u64),
        ..e.1
    })
}

/// `i` is the first entry of task `id`.
pub open spec fn first_of_task(s: Seq<(usize, SchedulePolicy)>, id: usize, i: int) -> bool {
    &&& 0 <= i < s.len()
    &&& s[i].0 == id
    &&& forall|k: int| 0 <= k < i ==> (#[trigger] s[k]).0 != id
}

pub open spec fn has_task(s: Seq<(usize, SchedulePolicy)>, id: usize) -> bool {
    exists|i: int| 0 <= i < s.len() && (#[trigger] s[i]).0 == id
}

/// The entries that are not task `id`, in order.
pub open spec fn without_task(s: Seq<(usize, SchedulePolicy)>, id: usize) -> Seq<(usize, SchedulePolicy)>
    decreases s.len(),
{
    if s.len() == 0 {
        s
    } else {
        let w = without_task(s.drop_last(), id);
        if s.last().0 == id { w } else { w.push(s.last()) }
    }
}

/// Finds the first entry of task `id`.
fn find_task(q: &Vec<(usize, SchedulePolicy)>, id: usize) -> (r: Option<usize>)
    ensures
        r matches Some(i) ==> first_of_task(q@, id, i as int),
        r is None ==> !has_task(q@, id),
{
    let mut i: usize = 0;
    while i < q.len()
        invariant
            i <= q@.len(),
            forall|k: int| 0 <= k < i ==> (#[trigger] q@[k]).0 != id,
        decreases q.len() - i,
    {
        if q[i].0 == id {
            return Some(i);
        }
        i += 1;
    }
    None
}

impl RunQueue {
    /// Ages every task by `tick` scaled by its weight, then sorts the queue
    /// by virtual runtime.
    pub fn rebalance(&mut self, tick: u64)
        requires
            old(self).queue@.len() > 0 ==> tick * 1024 <= u64::MAX,
        ensures
            final(self).queue@.to_multiset() == old(self).queue@.map_values(
                |e: (usize, SchedulePolicy)| bumped(e, tick),
            ).to_multiset(),
            final(self).queue@.len() == old(self).queue@.len(),
            sorted_by_vruntime(final(self).queue@),
            final(self).current == old(self).current,
            final(self).preempt_count == old(self).preempt_count,
    {
        let len = self.queue.len();
        let ghost q0 = self.queue@;
        let mut k: usize = 0;
        while k < len
            invariant
                q0 == old(self).queue@,
                len == q0.len(),
                len > 0 ==> tick * 1024 <= u64::MAX,
                k <= len,
                self.queue@.len() == len,
                forall|i: int| 0 <= i < len ==> #[trigger] self.queue@[i] == if i < k { bumped(q0[i], tick) } else { q0[i] },
                self.current == old(self).current,
                self.preempt_count == old(self).preempt_count,
            decreases len - k,
        {
            let (id, mut policy) = self.queue[k];
            let w = policy.weight();
            let delta = if w > 0 { (tick * 1024) / w } else { tick };
            policy.vruntime = policy.vruntime.wrapping_add(delta);
            self.queue.set(k, (id, policy));
            k += 1;
        }
        assert(self.queue@ =~= q0.map_values(|e: (usize, SchedulePolicy)| bumped(e, tick)));
        let ghost m0 = self.queue@.to_multiset();
        let mut i: usize = 0;
        while i < len
            invariant
                len == self.queue@.len(),
                self.queue@.to_multiset() == m0,
                i <= len,
                forall|a: int, b: int| 0 <= a < b < i ==> (#[trigger] self.queue@[a]).1.vruntime <= (#[trigger] self.queue@[b]).1.vruntime,
                forall|a: int, b: int| 0 <= a < i <= b < len ==> (#[trigger] self.queue@[a]).1.vruntime <= (#[trigger] self.queue@[b]).1.vruntime,
                self.current == old(self).current,
                self.preempt_count == old(self).preempt_count,
            decreases len - i,
        {
            let mut j = i + 1;
            while j < len
                invariant
                    len == self.queue@.len(),
                    self.queue@.to_multiset() == m0,
                    i < len,
                    i + 1 <= j <= len,
                    forall|a: int, b: int| 0 <= a < b < i ==> (#[trigger] self.queue@[a]).1.vruntime <= (#[trigger] self.queue@[b]).1.vruntime,
                    forall|a: int, b: int| 0 <= a < i <= b < len ==> (#[trigger] self.queue@[a]).1.vruntime <= (#[trigger] self.queue@[b]).1.vruntime,
                    forall|b: int| i < b < j ==> self.queue@[i as int].1.vruntime <= (#[trigger] self.queue@[b]).1.vruntime,
                    self.current == old(self).current,
                    self.preempt_count == old(self).preempt_count,
                decreases len - j,
            {
                if self.queue[i].1.vruntime > self.queue[j].1.vruntime {
                    let x = self.queue[i];
                    let y = self.queue[j];
                    let ghost before = self.queue@;
                    self.queue.set(i, y);
                    self.queue.set(j, x);
                    proof {
                        lemma_swap_multiset(before, i as int, j as int);
                        assert(self.queue@ == before.update(i as int, before[j as int]).update(j as int, before[i as int]));
                    }
                }
                j += 1;
            }
            i += 1;
        }
    }

    /// Drops every entry of task `task_id`; true when there was one.
    pub fn remove(&mut self, task_id: usize) -> (r: bool)
        ensures
            final(self).queue@ == without_task(old(self).queue@, task_id),
            r == has_task(old(self).queue@, task_id),
            final(self).current == old(self).current,
            final(self).preempt_count == old(self).preempt_count,
    {
        let before = self.queue.len();
        let ghost s = self.queue@;
        let ghost mut p: int = 0;
        let mut i: usize = 0;
        while i < self.queue.len()
            invariant
                s == old(self).queue@,
                before == s.len(),
                0 <= p <= s.len(),
                self.queue@ == without_task(s.take(p), task_id) + s.skip(p),
                i == without_task(s.take(p), task_id).len(),
                (i == p) == !has_task(s.take(p), task_id),
                i <= p,
                self.current == old(self).current,
                self.preempt_count == old(self).preempt_count,
            decreases self.queue.len() - i,
        {
            proof {
                assert(s.take(p + 1).drop_last() =~= s.take(p));
                assert(s.take(p + 1).last() == s[p]);
                assert(self.queue@[i as int] == s[p]);
                assert(s.skip(p) =~= seq![s[p]] + s.skip(p + 1));
            }
            if self.queue[i].0 == task_id {
                self.queue.remove(i);
                proof {
                    assert(s.take(p + 1)[p] == s[p]);
                    lemma_without_len(s.take(p), task_id);
                }
            } else {
                i += 1;
                proof {
                    if has_task(s.take(p + 1), task_id) {
                        let k = choose|k: int| 0 <= k < s.take(p + 1).len() && (#[trigger] s.take(p + 1)[k]).0 == task_id;
                        assert(s.take(p)[k] == s.take(p + 1)[k]);
                    }
                    if has_task(s.take(p), task_id) {
                        let k = choose|k: int| 0 <= k < s.take(p).len() && (#[trigger] s.take(p)[k]).0 == task_id;
                        assert(s.take(p + 1)[k] == s.take(p)[k]);
                    }
                }
            }
            proof {
                assert(self.queue@ =~= without_task(s.take(p + 1), task_id) + s.skip(p + 1));
                p = p + 1;
            }
        }
        proof {
            lemma_without_len(s.take(p), task_id);
            if p < s.len() {
                assert(self.queue@.len() > i);
            }
            assert(s.take(p) =~= s);
            assert(self.queue@ =~= without_task(s, task_id));
        }
        self.queue.len() < before
    }

    /// Ages the first entry of `task_id` by `delta` scaled by its weight.
    pub fn update_vruntime(&mut self, task_id: usize, delta: u64)
        requires
            has_task(old(self).queue@, task_id) ==> delta * 1024 <= u64::MAX,
        ensures
            final(self).current == old(self).current,
            final(self).preempt_count == old(self).preempt_count,
            !has_task(old(self).queue@, task_id) ==> final(self).queue@ == old(self).queue@,
            forall|i: int| #[trigger] first_of_task(old(self).queue@, task_id, i) ==> final(self).queue@ == old(self).queue@.update(
                i,
                bumped(old(self).queue@[i], delta),
            ),
    {
        match find_task(&self.queue, task_id) {
            Some(idx) => {
                proof {
                    assert forall|i: int| #[trigger] first_of_task(old(self).queue@, task_id, i) implies i == idx by {
                        if i < idx {
                            assert(self.queue@[i].0 != task_id);
                        }
                        if idx < i {
                            assert(self.queue@[idx as int].0 != task_id);
                        }
                    }
                }
                let (id, mut p) = self.queue[idx];
                let w = p.weight();
                let scaled = if w > 0 { (delta * 1024) / w } else { delta };
                p.vruntime = p.vruntime.wrapping_add(scaled);
                self.queue.set(idx, (id, p));
            }
            None => {
                proof {
                    assert forall|i: int| !#[trigger] first_of_task(old(self).queue@, task_id, i) by {
                        if first_of_task(old(self).queue@, task_id, i) {
                            assert(old(self).queue@[i].0 == task_id);
                        }
                    }
                }
            }
        }
    }

    /// Raises the priority of the first entry of `task_id` by `amount`
    /// (lowering its priority number), down to -20 at most.
    pub fn boost_priority(&mut self, task_id: usize, amount: i32)
        requires
            forall|i: int| #[trigger] first_of_task(old(self).queue@, task_id, i) ==> i32::MIN <= old(self).queue@[i].1.prio - amount <= i32::MAX,
        ensures
            final(self).current == old(self).current,
            final(self).preempt_count == old(self).preempt_count,
            !has_task(old(self).queue@, task_id) ==> final(self).queue@ == old(self).queue@,
            forall|i: int| #[trigger] first_of_task(old(self).queue@, task_id, i) ==> final(self).queue@ == old(self).queue@.update(
                i,
                (task_id, SchedulePolicy {
                    prio: if old(self).queue@[i].1.prio - amount >= -20 { (old(self).queue@[i].1.prio - amount) as i32 } else { -20i32 },
                    ..old(self).queue@[i].1
                }),
            ),
    {
        match find_task(&self.queue, task_id) {
            Some(idx) => {
                proof {
                    assert forall|i: int| #[trigger] first_of_task(old(self).queue@, task_id, i) implies i == idx by {
                        if i < idx {
                            assert(self.queue@[i].0 != task_id);
                        }
                        if idx < i {
                            assert(self.queue@[idx as int].0 != task_id);
                        }
                    }
                    assert(first_of_task(old(self).queue@, task_id, idx as int));
                }
                let (id, mut p) = self.queue[idx];
                let np = p.prio - amount;
                p.prio = if np >= -20 { np } else { -20 };
                self.queue.set(idx, (id, p));
            }
            None => {
                proof {
                    assert forall|i: int| !#[trigger] first_of_task(old(self).queue@, task_id, i) by {
                        if first_of_task(old(self).queue@, task_id, i) {
                            assert(old(self).queue@[i].0 == task_id);
                        }
                    }
                }
            }
        }
    }
}

proof fn lemma_without_len(s: Seq<(usize, SchedulePolicy)>, id: usize)
    ensures
        without_task(s, id).len() <= s.len(),
        without_task(s, id).len() == s.len() <==> !has_task(s, id),
    decreases s.len(),
{
    if s.len() > 0 {
        let d = s.drop_last();
        lemma_without_len(d, id);
        if has_task(d, id) {
            let k = choose|k: int| 0 <= k < d.len() && (#[trigger] d[k]).0 == id;
            assert(s[k] == d[k]);
        }
        if has_task(s, id) && s.last().0 != id {
            let k = choose|k: int| 0 <= k < s.len() && (#[trigger] s[k]).0 == id;
            assert(k < s.len() - 1);
            assert(d[k] == s[k]);
        }
        if s.last().0 == id {
            assert(s[s.len() - 1].0 == id);
        }
    }
}

} // verus!
