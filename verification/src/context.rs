//! Saved register contexts and the trap controller that dispatches them.
use vstd::prelude::*;

verus! {

pub const N_REGS: usize = 16;

/// The registers of a thread: `r[0]` carries return values, `r[14]` the
/// thread pointer and `r[15]` the stack pointer.
#[derive(Clone, Copy)]
pub struct Context {
    pub r: [u64; 16],
    pub ip: u64,
    pub flags: u64,
}

/// FNV-1a over the first `k` registers.
pub open spec fn reg_hash(r: Seq<u64>, k: int) -> u64
    decreases k,
{
    if k <= 0 {
        0xcbf29ce484222325u64
    } else {
        vstd::wrapping::u64_specs::wrapping_mul(reg_hash(r, k - 1) ^ r[k - 1], 0x100000001b3u64)
    }
}

/// The changed registers between `a` and `b` among the first `k`, as
/// (index, value in `a`, value in `b`).
pub open spec fn reg_changes(a: Seq<u64>, b: Seq<u64>, k: int) -> Seq<(usize, u64, u64)>
    decreases k,
{
    if k <= 0 {
        Seq::empty()
    } else {
        let c = reg_changes(a, b, k - 1);
        if a[k - 1] != b[k - 1] { c.push(((k - 1) as usize, a[k - 1], b[k - 1])) } else { c }
    }
}

/// What `reg_class` makes of a register value, by its top four bits.
pub open spec fn reg_class_spec(v: u64) -> u64 {
    let top = v >> 60u64;
    if top <= 3 {
        v & 0x0FFF_FFFF_FFFF_FFFFu64
    } else if top <= 7 {
        ((v << 4u64) >> 4u64) as u64
    } else if top <= 11 {
        vstd::wrapping::u64_specs::wrapping_sub(0, v)
    } else {
        v
    }
}

impl Context {
    pub fn new() -> (c: Self)
        ensures
            c.r@ == Seq::new(16, |i: int| 0u64),
            c.ip == 0,
            c.flags == 0,
    {
        let c = Context { r: [0u64; 16], ip: 0, flags: 0 };
        assert(c.r@ =~= Seq::new(16, |i: int| 0u64));
        c
    }

    /// A context holding `src`, at address 0 with no flags.
    pub fn capture(src: &[u64; 16]) -> (c: Self)
        ensures
            c.r@ == src@,
            c.ip == 0,
            c.flags == 0,
    {
        let mut c = Context::new();
        let mut idx: usize = 0;
        while idx < N_REGS
            invariant
                idx <= 16,
                c.r@.len() == 16,
                src@.len() == 16,
                forall|j: int| 0 <= j < idx ==> c.r@[j] == src@[j],
                c.ip == 0,
                c.flags == 0,
            decreases 16 - idx,
        {
            c.r[idx] = src[idx];
            idx = idx + 1;
        }
        assert(c.r@ =~= src@);
        c
    }

    /// The registers as loaded, with the first two swapped.
    pub fn apply(&self) -> (out: [u64; 16])
        ensures
            out@ == self.r@.update(0, self.r@[1]).update(1, self.r@[0]),
    {
        let mut out = self.r;
        out[0] = self.r[1];
        out[1] = self.r[0];
        assert(out@ =~= self.r@.update(0, self.r@[1]).update(1, self.r@[0]));
        out
    }

    pub fn set_ip(&mut self, v: u64)
        ensures
            *final(self) == (Context { ip: v, ..*old(self) }),
    {
        self.ip = v;
    }

    pub fn set_sp(&mut self, v: u64)
        ensures
            final(self).r@ == old(self).r@.update(15, v),
            final(self).ip == old(self).ip,
            final(self).flags == old(self).flags,
    {
        self.r[N_REGS - 1] = v;
    }

    pub fn set_ret(&mut self, v: u64)
        ensures
            final(self).r@ == old(self).r@.update(0, v),
            final(self).ip == old(self).ip,
            final(self).flags == old(self).flags,
    {
        self.r[0] = v;
    }

    pub fn set_tls(&mut self, v: u64)
        ensures
            final(self).r@ == old(self).r@.update(14, v),
            final(self).ip == old(self).ip,
            final(self).flags == old(self).flags,
    {
        self.r[N_REGS - 2] = v;
    }

    /// A copy with one part replaced, chosen by the low four bits of `op`:
    /// the return register, the address, the stack pointer, the thread
    /// pointer, the flags, or (5) the register named by the top byte of
    /// `val`, which gets the low seven bytes. Other codes change nothing.
    pub fn transform(&self, op: u8, val: u64) -> (out: Context)
        ensures
            ({
                let code = op & 0x0F;
                if code == 0 {
                    out.r@ == self.r@.update(0, val) && out.ip == self.ip && out.flags == self.flags
                } else if code == 1 {
                    out.r@ == self.r@ && out.ip == val && out.flags == self.flags
                } else if code == 2 {
                    out.r@ == self.r@.update(15, val) && out.ip == self.ip && out.flags == self.flags
                } else if code == 3 {
                    out.r@ == self.r@.update(14, val) && out.ip == self.ip && out.flags == self.flags
                } else if code == 4 {
                    out.r@ == self.r@ && out.ip == self.ip && out.flags == val
                } else if code == 5 && (val >> 56u64) < 16 {
                    &&& out.r@ == self.r@.update((val >> 56u64) as int, val & 0x00FF_FFFF_FFFF_FFFFu64)
                    &&& out.ip == self.ip
                    &&& out.flags == self.flags
                } else {
                    out.r@ == self.r@ && out.ip == self.ip && out.flags == self.flags
                }
            }),
    {
        let mut out = Context { r: self.r, ip: self.ip, flags: self.flags };
        let code = op & 0x0F;
        if code == 0 {
            out.r[0] = val;
        } else if code == 1 {
            out.ip = val;
        } else if code == 2 {
            out.r[N_REGS - 1] = val;
        } else if code == 3 {
            out.r[N_REGS - 2] = val;
        } else if code == 4 {
            out.flags = val;
        } else if code == 5 {
            assert(val >> 56u64 <= 255) by (bit_vector);
            let idx = (val >> 56u64) as usize;
            if idx < N_REGS {
                out.r[idx] = val & 0x00FF_FFFF_FFFF_FFFFu64;
            }
        }
        out
    }

    pub fn syscall_args(&self) -> (r: (u64, u64, u64, u64, u64, u64))
        ensures
            r == (self.r@[0], self.r@[1], self.r@[2], self.r@[3], self.r@[4], self.r@[5]),
    {
        (self.r[0], self.r[1], self.r[2], self.r[3], self.r[4], self.r[5])
    }

    /// A copy whose return register holds `ret`.
    pub fn clone_with_ret(&self, ret: u64) -> (c: Context)
        ensures
            c.r@ == self.r@.update(0, ret),
            c.ip == self.ip,
            c.flags == self.flags,
    {
        let mut c = Context { r: self.r, ip: self.ip, flags: self.flags };
        c.r[0] = ret;
        c
    }

    /// The registers that differ, in order, then the address (as register
    /// 16) and the flags (as 17) when they differ.
    pub fn diff(&self, other: &Context) -> (changes: Vec<(usize, u64, u64)>)
        ensures
            changes@ == reg_changes(self.r@, other.r@, 16) + (if self.ip != other.ip {
                seq![(16usize, self.ip, other.ip)]
            } else {
                Seq::empty()
            }) + (if self.flags != other.flags {
                seq![(17usize, self.flags, other.flags)]
            } else {
                Seq::empty()
            }),
    {
        let mut changes: Vec<(usize, u64, u64)> = Vec::new();
        let mut i: usize = 0;
        while i < N_REGS
            invariant
                i <= 16,
                self.r@.len() == 16,
                other.r@.len() == 16,
                changes@ == reg_changes(self.r@, other.r@, i as int),
            decreases 16 - i,
        {
            if self.r[i] != other.r[i] {
                changes.push((i, self.r[i], other.r[i]));
            }
            i = i + 1;
        }
        let ghost regs = changes@;
        if self.ip != other.ip {
            changes.push((N_REGS, self.ip, other.ip));
        }
        let ghost with_ip = changes@;
        if self.flags != other.flags {
            changes.push((N_REGS + 1, self.flags, other.flags));
        }
        proof {
            let ipart = if self.ip != other.ip { seq![(16usize, self.ip, other.ip)] } else { Seq::empty() };
            let fpart = if self.flags != other.flags { seq![(17usize, self.flags, other.flags)] } else { Seq::empty() };
            assert(with_ip =~= regs + ipart);
            assert(changes@ =~= regs + ipart + fpart);
        }
        changes
    }

    /// FNV-1a over the registers, then the address, then the flags mixed in
    /// without a last multiply.
    pub fn hash(&self) -> (h: u64)
        ensures
            h == vstd::wrapping::u64_specs::wrapping_mul(reg_hash(self.r@, 16) ^ self.ip, 0x100000001b3u64) ^ self.flags,
    {
        let mut h: u64 = 0xcbf29ce484222325u64;
        let mut i: usize = 0;
        while i < N_REGS
            invariant
                i <= 16,
                self.r@.len() == 16,
                h == reg_hash(self.r@, i as int),
            decreases 16 - i,
        {
            h = h ^ self.r[i];
            h = h.wrapping_mul(0x100000001b3u64);
            i = i + 1;
        }
        h = h ^ self.ip;
        h = h.wrapping_mul(0x100000001b3u64);
        h ^ self.flags
    }

    /// Register `idx` classified by its top bits; 0 past the registers.
    pub fn reg_class(&self, idx: usize) -> (r: u64)
        ensures
            r == if idx >= 16 { 0 } else { reg_class_spec(self.r@[idx as int]) },
    {
        if idx >= N_REGS {
            return 0;
        }
        let v = self.r[idx];
        let top = v >> 60u64;
        if top <= 3 {
            v & 0x0FFF_FFFF_FFFF_FFFFu64
        } else if top <= 7 {
            (v << 4u64) >> 4u64
        } else if top <= 11 {
            0u64.wrapping_sub(v)
        } else {
            v
        }
    }
}

/// The trap controller: interrupt masks, the frame being handled, a stack
/// of saved frames and the handler state.
pub struct TrapCtl {
    pub active: bool,
    pub hw_mask: u32,
    pub sw_mask: u32,
    pub nest: usize,
    pub frame: Option<Context>,
    pub stack: Vec<Context>,
    pub irq_on: bool,
    pub suppressed: bool,
}

/// Whether `dispatch_vector` hands a trap on vector `vector` to the
/// handler, given the masks.
pub open spec fn vector_enabled(hw: u32, sw: u32, vector: usize) -> bool {
    if vector == 0 {
        hw & 1 != 0
    } else if vector == 1 {
        hw & 2 != 0
    } else if vector <= 7 {
        hw & (1u32 << vector as u32) != 0
    } else if vector <= 15 {
        sw & (1u32 << (vector - 8) as u32) != 0
    } else {
        false
    }
}

impl TrapCtl {
    pub fn new() -> (t: Self)
        ensures
            !t.active,
            t.hw_mask == 0,
            t.sw_mask == 0,
            t.nest == 0,
            t.frame is None,
            t.stack@.len() == 0,
            t.irq_on,
            !t.suppressed,
    {
        TrapCtl {
            active: false,
            hw_mask: 0,
            sw_mask: 0,
            nest: 0,
            frame: None,
            stack: Vec::new(),
            irq_on: true,
            suppressed: false,
        }
    }

    pub fn configure(&mut self, a: u32, b: u32)
        ensures
            *final(self) == (TrapCtl { hw_mask: a, sw_mask: b, ..*old(self) }),
    {
        self.hw_mask = a;
        self.sw_mask = b;
    }

    pub fn hw(&self) -> (r: u32)
        ensures
            r == self.hw_mask,
    {
        self.hw_mask
    }

    pub fn sw(&self) -> (r: u32)
        ensures
            r == self.sw_mask,
    {
        self.sw_mask
    }

    pub fn in_handler(&self) -> (r: bool)
        ensures
            r == (self.active || self.nest > 0),
    {
        self.active || self.nest > 0
    }

    /// Records `ctx` as the frame being handled and hands it back.
    pub fn dispatch(&mut self, ctx: Context) -> (r: Context)
        ensures
            r == ctx,
            *final(self) == (TrapCtl { frame: Some(ctx), ..*old(self) }),
    {
        self.frame = Some(ctx);
        ctx
    }

    pub fn current(&self) -> (r: Option<Context>)
        ensures
            r == self.frame,
    {
        self.frame
    }

    /// Handles an interrupt on `ctx`: interrupts are on, the frame is
    /// recorded, and the handler is left inactive.
    pub fn handle_irq(&mut self, ctx: Context) -> (r: Context)
        ensures
            r == ctx,
            *final(self) == (TrapCtl { frame: Some(ctx), active: false, irq_on: true, ..*old(self) }),
    {
        self.active = true;
        self.irq_on = true;
        self.frame = Some(ctx);
        self.active = false;
        ctx
    }

    /// A page fault is handled only inside a handler.
    pub fn on_pgfault(&self, va: usize) -> (r: Result<(), &'static str>)
        ensures
            r == if !self.active && self.nest == 0 {
                Err::<(), &'static str>("fault")
            } else {
                Ok::<(), &'static str>(())
            },
    {
        if !self.active && self.nest == 0 {
            return Err("fault");
        }
        Ok(())
    }

    /// Dispatches `ctx` when the mask bit of `vector` is set; hands it back
    /// untouched otherwise.
    pub fn dispatch_vector(&mut self, vector: usize, ctx: Context) -> (r: Context)
        ensures
            r == ctx,
            vector_enabled(old(self).hw_mask, old(self).sw_mask, vector) ==> *final(self) == (TrapCtl {
                frame: Some(ctx),
                ..*old(self)
            }),
            !vector_enabled(old(self).hw_mask, old(self).sw_mask, vector) ==> *final(self) == *old(self),
    {
        let hw = self.hw_mask;
        let sw = self.sw_mask;
        if vector == 0 {
            if hw & 0x01 != 0 {
                return self.dispatch(ctx);
            }
            ctx
        } else if vector == 1 {
            if hw & 0x02 != 0 {
                return self.dispatch(ctx);
            }
            ctx
        } else if vector <= 7 {
            if hw & (1u32 << vector as u32) != 0 {
                return self.dispatch(ctx);
            }
            ctx
        } else if vector <= 15 {
            let sw_bit = vector - 8;
            if sw & (1u32 << sw_bit as u32) != 0 {
                return self.dispatch(ctx);
            }
            ctx
        } else {
            ctx
        }
    }

    pub fn push_frame(&mut self, ctx: &Context)
        ensures
            final(self).stack@ == old(self).stack@.push(*ctx),
            final(self).frame == old(self).frame,
            final(self).nest == old(self).nest,
            final(self).active == old(self).active,
    {
        self.stack.push(*ctx);
    }

    pub fn pop_frame(&mut self) -> (r: Option<Context>)
        ensures
            old(self).stack@.len() == 0 ==> r is None && final(self).stack@ == old(self).stack@,
            old(self).stack@.len() > 0 ==> r == Some(old(self).stack@.last()) && final(self).stack@
                == old(self).stack@.drop_last(),
            final(self).frame == old(self).frame,
            final(self).nest == old(self).nest,
            final(self).active == old(self).active,
    {
        self.stack.pop()
    }

    pub fn nest_depth(&self) -> (r: usize)
        ensures
            r == self.nest,
    {
        self.nest
    }

    pub fn suppress(&mut self)
        ensures
            final(self).suppressed,
    {
        self.suppressed = true;
    }

    pub fn unsuppress(&mut self)
        ensures
            !final(self).suppressed,
    {
        self.suppressed = false;
    }
}

} // verus!
