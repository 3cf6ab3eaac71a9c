//! The tick counters: the wall clock, advanced by the boot CPU, and the
//! count of ticks over all CPUs.
use vstd::prelude::*;
use crate::pagecache::{bump, wrap_inc};

verus! {

pub struct Clocks {
    pub clk: usize,
    pub clk_all: usize,
}

impl Clocks {
    pub fn new() -> (r: Self)
        ensures
            r.clk == 0 && r.clk_all == 0,
    {
        Clocks { clk: 0, clk_all: 0 }
    }
}

/// The wall clock in ticks.
pub fn wclk(c: &Clocks) -> (r: usize)
    ensures
        r == c.clk,
{
    c.clk
}

/// The ticks counted over all CPUs.
pub fn cclk(c: &Clocks) -> (r: usize)
    ensures
        r == c.clk_all,
{
    c.clk_all
}

/// A tick on `cpu_id`: CPU 0 also advances the wall clock.
pub fn dtk(c: &mut Clocks, cpu_id: usize)
    ensures
        final(c).clk == if cpu_id == 0 { wrap_inc(old(c).clk) } else { old(c).clk },
        final(c).clk_all == wrap_inc(old(c).clk_all),
{
    if cpu_id == 0 {
        c.clk = bump(c.clk);
    }
    c.clk_all = bump(c.clk_all);
}

/// The timer interrupt of `cpu_id`.
pub fn tmr(c: &mut Clocks, cpu_id: usize)
    ensures
        final(c).clk == if cpu_id == 0 { wrap_inc(old(c).clk) } else { old(c).clk },
        final(c).clk_all == wrap_inc(old(c).clk_all),
{
    dtk(c, cpu_id);
}

} // verus!
