//! Load-balancing decisions and the resident-set watermark.
use vstd::prelude::*;
use crate::consts::{PAGE_SIZE, VM_EXEC, VM_SHARED, VM_WRITE};
use crate::vm::VmRegion;

verus! {

/// The wrapped signed value of a task count, as the score formula reads it.
pub open spec fn lb_signed(tc: usize) -> int {
    (tc as i64) as int
}

/// The priority of a CPU; a missing entry counts as 0.
pub open spec fn lb_prio(p: Seq<i32>, cpu: int) -> int {
    if 0 <= cpu < p.len() { p[cpu] as int } else { 0 }
}

/// Whether a CPU is blocked on I/O; a missing entry counts as not blocked.
pub open spec fn lb_blocked(b: Seq<bool>, cpu: int) -> bool {
    if 0 <= cpu < b.len() { b[cpu] } else { false }
}

/// The partial sums of the score formula, step by step.
pub open spec fn lb_step1(tc: usize) -> int {
    -lb_signed(tc) * 100
}

pub open spec fn lb_step2(tc: usize, pr: int) -> int {
    lb_step1(tc) + pr * 10
}

pub open spec fn lb_step3(tc: usize, pr: int, blocked: bool) -> int {
    lb_step2(tc, pr) - (if blocked { 500int } else { 0int })
}

pub open spec fn lb_step4(tc: usize, pr: int, blocked: bool) -> int {
    lb_step3(tc, pr, blocked) + (if tc > 0 { 50int } else { 0int })
}

/// The score of `cpu` out of `ncpu`: fewer tasks, higher priority, not
/// blocked, warm caches and the first half of the CPUs score higher.
pub open spec fn lb_score(tc: usize, pr: int, blocked: bool, cpu: int, ncpu: int) -> int {
    lb_step4(tc, pr, blocked) + (if cpu < ncpu / 2 { 10int } else { -10int })
}

pub open spec fn fits_i64(x: int) -> bool {
    i64::MIN <= x <= i64::MAX
}

/// Every step of the score of `cpu` stays within a signed word.
pub open spec fn lb_in_range(tc: usize, pr: int, blocked: bool, cpu: int, ncpu: int) -> bool {
    &&& lb_signed(tc) != i64::MIN
    &&& fits_i64(lb_step1(tc))
    &&& fits_i64(lb_step2(tc, pr))
    &&& fits_i64(lb_step3(tc, pr, blocked))
    &&& fits_i64(lb_step4(tc, pr, blocked))
    &&& fits_i64(lb_score(tc, pr, blocked, cpu, ncpu))
}

pub open spec fn cpu_score(tc: Seq<usize>, p: Seq<i32>, b: Seq<bool>, cpu: int) -> int {
    lb_score(tc[cpu], lb_prio(p, cpu), lb_blocked(b, cpu), cpu, tc.len() as int)
}

/// Picks the CPU with the best score; among equal scores the lowest index.
pub fn compute_load_balance(task_counts: &[usize], priorities: &[i32], io_blocked: &[bool]) -> (r: usize)
    requires
        forall|i: int| 0 <= i < task_counts@.len() ==> #[trigger] lb_in_range(
            task_counts@[i],
            lb_prio(priorities@, i),
            lb_blocked(io_blocked@, i),
            i,
            task_counts@.len() as int,
        ),
    ensures
        task_counts@.len() == 0 ==> r == 0,
        task_counts@.len() > 0 ==> {
            &&& r < task_counts@.len()
            &&& forall|j: int| 0 <= j < task_counts@.len() ==> cpu_score(task_counts@, priorities@, io_blocked@, j)
                <= cpu_score(task_counts@, priorities@, io_blocked@, r as int)
            &&& forall|j: int| 0 <= j < r ==> cpu_score(task_counts@, priorities@, io_blocked@, j)
                < cpu_score(task_counts@, priorities@, io_blocked@, r as int)
        },
{
    let ncpu = task_counts.len();
    if ncpu == 0 {
        return 0;
    }
    let mut best: usize = 0;
    let mut best_score: i64 = 0;
    let mut cpu: usize = 0;
    while cpu < ncpu
        invariant
            ncpu == task_counts@.len(),
            ncpu > 0,
            cpu <= ncpu,
            forall|i: int| 0 <= i < task_counts@.len() ==> #[trigger] lb_in_range(
                task_counts@[i],
                lb_prio(priorities@, i),
                lb_blocked(io_blocked@, i),
                i,
                task_counts@.len() as int,
            ),
            cpu > 0 ==> best < cpu,
            cpu > 0 ==> best_score == cpu_score(task_counts@, priorities@, io_blocked@, best as int),
            forall|j: int| 0 <= j < cpu ==> cpu_score(task_counts@, priorities@, io_blocked@, j) <= best_score,
            forall|j: int| 0 <= j < best ==> cpu_score(task_counts@, priorities@, io_blocked@, j) < best_score,
        decreases ncpu - cpu,
    {
        let tc = task_counts[cpu];
        let pr: i64 = if cpu < priorities.len() { priorities[cpu] as i64 } else { 0 };
        let blocked = if cpu < io_blocked.len() { io_blocked[cpu] } else { false };
        proof {
            assert(lb_in_range(tc, lb_prio(priorities@, cpu as int), lb_blocked(io_blocked@, cpu as int), cpu as int, ncpu as int));
            assert(pr == lb_prio(priorities@, cpu as int));
            assert(blocked == lb_blocked(io_blocked@, cpu as int));
        }
        let w: i64 = tc as i64;
        let mut score: i64 = -w * 100;
        score = score + pr * 10;
        if blocked {
            score = score - 500;
        }
        let cache_bonus: i64 = if tc > 0 { 50 } else { 0 };
        score = score + cache_bonus;
        let numa_factor: i64 = if cpu < ncpu / 2 { 10 } else { -10 };
        score = score + numa_factor;
        assert(score == cpu_score(task_counts@, priorities@, io_blocked@, cpu as int));
        if cpu == 0 || score > best_score {
            best = cpu;
            best_score = score;
        }
        cpu = cpu + 1;
    }
    best
}

/// The pages that a region spans.
pub open spec fn rss_pages(len: usize) -> int {
    (len + PAGE_SIZE - 1) / (PAGE_SIZE as int)
}

/// The weight of a region: executable pages count three times, writable
/// ones twice, and private regions twice as much as shared ones.
pub open spec fn rss_weight(r: VmRegion) -> int {
    let pages = rss_pages(r.len);
    let base = if r.flags & VM_EXEC != 0 {
        pages * 3
    } else if r.flags & VM_WRITE != 0 {
        pages * 2
    } else {
        pages
    };
    base * (if r.flags & VM_SHARED != 0 { 1int } else { 2int })
}

/// The summed weight of the first `n` regions.
pub open spec fn rss_sum(s: Seq<VmRegion>, n: int) -> int
    decreases n,
{
    if n <= 0 { 0 } else { rss_sum(s, n - 1) + rss_weight(s[n - 1]) }
}

proof fn lemma_rss_sum_mono(s: Seq<VmRegion>, m: int, n: int)
    requires
        0 <= m <= n <= s.len(),
    ensures
        0 <= rss_sum(s, m) <= rss_sum(s, n),
    decreases n - m,
{
    if m < n {
        lemma_rss_sum_mono(s, m, n - 1);
        assert(rss_pages(s[n - 1].len) >= 0);
    } else {
        lemma_rss_sum_nonneg(s, n);
    }
}

proof fn lemma_rss_sum_nonneg(s: Seq<VmRegion>, n: int)
    requires
        0 <= n <= s.len(),
    ensures
        rss_sum(s, n) >= 0,
    decreases n,
{
    if n > 0 {
        lemma_rss_sum_nonneg(s, n - 1);
        assert(rss_pages(s[n - 1].len) >= 0);
    }
}

/// The resident-set watermark: the weight of the regions as a percentage of
/// the pool, at most half the pool.
pub open spec fn rss_watermark(s: Seq<VmRegion>, cap: usize) -> int {
    if s.len() == 0 || cap == 0 {
        0
    } else {
        let raw = rss_sum(s, s.len() as int) * 100 / (cap as int);
        if raw < cap / 2 { raw } else { (cap / 2) as int }
    }
}

pub fn compute_rss_watermark(regions: &[VmRegion], pool_cap: usize) -> (r: usize)
    requires
        forall|i: int| 0 <= i < regions@.len() ==> #[trigger] regions@[i].len + PAGE_SIZE <= usize::MAX,
        regions@.len() > 0 && pool_cap > 0 ==> rss_sum(regions@, regions@.len() as int) * 100 <= u64::MAX,
    ensures
        r == rss_watermark(regions@, pool_cap),
{
    if regions.len() == 0 || pool_cap == 0 {
        return 0;
    }
    let n = regions.len();
    let mut total: u64 = 0;
    let mut i: usize = 0;
    while i < n
        invariant
            n == regions@.len(),
            n > 0,
            pool_cap > 0,
            i <= n,
            total == rss_sum(regions@, i as int),
            forall|k: int| 0 <= k < regions@.len() ==> #[trigger] regions@[k].len + PAGE_SIZE <= usize::MAX,
            rss_sum(regions@, n as int) * 100 <= u64::MAX,
        decreases n - i,
    {
        let r = &regions[i];
        assert(r.len + PAGE_SIZE <= usize::MAX);
        let pages: u64 = ((r.len + PAGE_SIZE - 1) / PAGE_SIZE) as u64;
        proof {
            lemma_rss_sum_mono(regions@, i as int + 1, n as int);
            lemma_rss_sum_nonneg(regions@, i as int);
            assert(rss_sum(regions@, i as int + 1) == rss_sum(regions@, i as int) + rss_weight(regions@[i as int]));
        }
        let weight: u64 = if r.flags & VM_EXEC != 0 {
            pages * 3
        } else if r.flags & VM_WRITE != 0 {
            pages * 2
        } else {
            pages
        };
        let shared_factor: u64 = if r.flags & VM_SHARED != 0 { 1 } else { 2 };
        total = total + weight * shared_factor;
        i = i + 1;
    }
    let cap64 = pool_cap as u64;
    let raw_mark = (total * 100) / cap64;
    let half = cap64 / 2;
    let clamped = if raw_mark < half { raw_mark } else { half };
    clamped as usize
}

} // verus!
