//! A block device that can be told to fail, with an optional journal device
//! that is consulted on every failed read.
use vstd::prelude::*;
use crate::mount::copy_bytes;
use crate::pagecache::{bump, wrap_inc};

verus! {

pub struct Disk {
    pub errs: usize,
    pub ops: usize,
    pub label: Vec<u8>,
    pub journal: Option<Box<Disk>>,
}

/// The counters (failures left, operations done) down the chain of
/// journals, this disk first.
pub open spec fn chain(d: Disk) -> Seq<(usize, usize)>
    decreases d,
{
    let rest = match d.journal {
        Some(j) => chain(*j),
        None => Seq::empty(),
    };
    seq![(d.errs, d.ops)] + rest
}

/// The labels down the chain of journals.
pub open spec fn labels(d: Disk) -> Seq<Seq<u8>>
    decreases d,
{
    let rest = match d.journal {
        Some(j) => labels(*j),
        None => Seq::empty(),
    };
    seq![d.label@] + rest
}

/// `o` advanced by `n` operations, wrapping at the top of the word.
pub open spec fn wrap_add(o: usize, n: nat) -> usize
    decreases n,
{
    if n == 0 { o } else { wrap_inc(wrap_add(o, (n - 1) as nat)) }
}

/// The attempt limit handed on to a journal.
pub open spec fn min5(lim: usize) -> usize {
    if lim < 5 { lim } else { 5 }
}

/// Whether a bounded read with `e` failures pending succeeds within `lim`
/// attempts (0: no limit); `usize::MAX` pending failures never run out.
pub open spec fn read_ok(e: usize, lim: usize) -> bool {
    e == 0 || (e != usize::MAX && (lim == 0 || e < lim))
}

/// How many attempts of a bounded read fail.
pub open spec fn fail_iters(e: usize, lim: usize) -> nat {
    if e == 0 {
        0
    } else if e == usize::MAX {
        lim as nat
    } else if lim == 0 || e < lim {
        e as nat
    } else {
        lim as nat
    }
}

/// The counters of a disk after one bounded read.
pub open spec fn rbn_top(e: usize, o: usize, lim: usize) -> (usize, usize) {
    let k = fail_iters(e, lim);
    (
        if e == usize::MAX { e } else { (e - k) as usize },
        wrap_add(o, k + if read_ok(e, lim) { 1nat } else { 0nat }),
    )
}

/// The counters down a chain after a bounded read of its first disk.
pub open spec fn rbn_chain(c: Seq<(usize, usize)>, lim: usize) -> Seq<(usize, usize)>
    decreases c.len(), 0nat, 0nat,
{
    if c.len() == 0 {
        c
    } else {
        seq![rbn_top(c[0].0, c[0].1, lim)] + rbn_times(c.drop_first(), min5(lim), fail_iters(c[0].0, lim))
    }
}

/// The counters down a chain after `k` bounded reads of its first disk.
pub open spec fn rbn_times(c: Seq<(usize, usize)>, lim: usize, k: nat) -> Seq<(usize, usize)>
    decreases c.len(), 1nat, k,
{
    if k == 0 {
        c
    } else {
        let x = rbn_times(c, lim, (k - 1) as nat);
        rbn_chain(x.subrange(0, if x.len() < c.len() { x.len() as int } else { c.len() as int }), lim)
    }
}

/// A bounded read ends: with no limit, no disk of the chain fails forever.
pub open spec fn rbn_ends(c: Seq<(usize, usize)>, lim: usize) -> bool {
    lim == 0 ==> forall|i: int| 0 <= i < c.len() ==> (#[trigger] c[i]).0 != usize::MAX
}

/// The bytes a successful bounded read leaves in a buffer of `n` bytes.
pub open spec fn rbn_pattern(n: nat) -> Seq<u8> {
    Seq::new(n, |i: int| 0xAAu8 ^ (i as u8))
}

proof fn lemma_rbn_len(c: Seq<(usize, usize)>, lim: usize)
    ensures
        rbn_chain(c, lim).len() == c.len(),
    decreases c.len(), 0nat, 0nat,
{
    if c.len() > 0 {
        lemma_rbn_times_len(c.drop_first(), min5(lim), fail_iters(c[0].0, lim));
    }
}

proof fn lemma_rbn_times_len(c: Seq<(usize, usize)>, lim: usize, k: nat)
    ensures
        rbn_times(c, lim, k).len() == c.len(),
        k > 0 ==> rbn_times(c, lim, k) == rbn_chain(rbn_times(c, lim, (k - 1) as nat), lim),
    decreases c.len(), 1nat, k,
{
    if k > 0 {
        lemma_rbn_times_len(c, lim, (k - 1) as nat);
        let x = rbn_times(c, lim, (k - 1) as nat);
        assert(x.subrange(0, x.len() as int) =~= x);
        lemma_rbn_len(x, lim);
    }
}

proof fn lemma_rbn_ends_times(c: Seq<(usize, usize)>, lim: usize, k: nat)
    requires
        rbn_ends(c, lim),
    ensures
        rbn_ends(rbn_times(c, lim, k), lim),
    decreases c.len(), 1nat, k,
{
    if k > 0 {
        lemma_rbn_ends_times(c, lim, (k - 1) as nat);
        lemma_rbn_times_len(c, lim, (k - 1) as nat);
        lemma_rbn_times_len(c, lim, k);
        lemma_rbn_ends_chain(rbn_times(c, lim, (k - 1) as nat), lim);
    }
}

proof fn lemma_rbn_ends_chain(c: Seq<(usize, usize)>, lim: usize)
    requires
        rbn_ends(c, lim),
    ensures
        rbn_ends(rbn_chain(c, lim), lim),
    decreases c.len(), 0nat, 0nat,
{
    if c.len() > 0 {
        let rest = c.drop_first();
        assert(rbn_ends(rest, min5(lim)));
        lemma_rbn_ends_times(rest, min5(lim), fail_iters(c[0].0, lim));
        lemma_rbn_times_len(rest, min5(lim), fail_iters(c[0].0, lim));
        lemma_rbn_len(c, lim);
    }
}

proof fn lemma_chain_nonempty(d: Disk)
    ensures
        chain(d).len() >= 1,
        chain(d)[0] == (d.errs, d.ops),
        d.journal matches Some(j) ==> chain(d).drop_first() == chain(*j),
        d.journal is None ==> chain(d).len() == 1,
        labels(d).len() == chain(d).len(),
        labels(d)[0] == d.label@,
        d.journal matches Some(j) ==> labels(d).drop_first() == labels(*j),
    decreases d,
{
    match d.journal {
        Some(j) => {
            lemma_chain_nonempty(*j);
            assert(chain(d).drop_first() =~= chain(*j));
            assert(labels(d).drop_first() =~= labels(*j));
        },
        None => {},
    }
}

fn fill_pattern(out: &mut [u8])
    ensures
        final(out)@ == rbn_pattern(old(out)@.len()),
{
    let n = out.len();
    let mut i: usize = 0;
    while i < n
        invariant
            n == out@.len(),
            i <= n,
            forall|k: int| 0 <= k < i ==> #[trigger] out@[k] == 0xAAu8 ^ (k as u8),
        decreases n - i,
    {
        out[i] = 0xAAu8 ^ (i as u8);
        i = i + 1;
    }
    assert(out@ =~= rbn_pattern(old(out)@.len()));
}

fn fill_byte(out: &mut [u8], b: u8)
    ensures
        final(out)@ == Seq::new(old(out)@.len(), |i: int| b),
{
    let n = out.len();
    let mut i: usize = 0;
    while i < n
        invariant
            n == out@.len(),
            i <= n,
            forall|k: int| 0 <= k < i ==> #[trigger] out@[k] == b,
        decreases n - i,
    {
        out[i] = b;
        i = i + 1;
    }
    assert(out@ =~= Seq::new(old(out)@.len(), |i: int| b));
}

impl Disk {
    pub fn new(s: &[u8]) -> (r: Self)
        ensures
            r.errs == 0,
            r.ops == 0,
            r.label@ == s@,
            r.journal is None,
    {
        Disk { errs: 0, ops: 0, label: copy_bytes(s), journal: None }
    }

    /// A disk whose next `n` operations fail.
    pub fn failing(s: &[u8], n: usize) -> (r: Self)
        ensures
            r.errs == n,
            r.ops == 0,
            r.label@ == s@,
            r.journal is None,
    {
        Disk { errs: n, ops: 0, label: copy_bytes(s), journal: None }
    }

    pub fn attach_journal(&mut self, d: Disk)
        ensures
            final(self).journal == Some(Box::new(d)),
            final(self).errs == old(self).errs,
            final(self).ops == old(self).ops,
            final(self).label == old(self).label,
    {
        self.journal = Some(Box::new(d));
    }

    pub fn set_errs(&mut self, n: usize)
        ensures
            final(self).errs == n,
            final(self).ops == old(self).ops,
            final(self).label == old(self).label,
            final(self).journal == old(self).journal,
    {
        self.errs = n;
    }

    /// Reads a block, retrying at most `lim` times (0: until it succeeds);
    /// every failed attempt consults the journal with a limit of at most 5.
    /// On success the buffer holds the read pattern and the number of
    /// attempts is returned.
    pub fn read_block_n(&mut self, blk: usize, out: &mut [u8], lim: usize) -> (r: Result<usize, &'static str>)
        requires
            rbn_ends(chain(*old(self)), lim),
        ensures
            chain(*final(self)) == rbn_chain(chain(*old(self)), lim),
            labels(*final(self)) == labels(*old(self)),
            read_ok(old(self).errs, lim) ==> r == Ok::<usize, &'static str>((old(self).errs + 1) as usize)
                && final(out)@ == rbn_pattern(old(out)@.len()),
            !read_ok(old(self).errs, lim) ==> r == Err::<usize, &'static str>("limit") && final(out)@ == old(out)@,
        decreases chain(*old(self)).len(),
    {
        let ghost c0 = chain(*self);
        let ghost l0 = labels(*self);
        let ghost e0 = self.errs;
        let ghost o0 = self.ops;
        let ghost jl = min5(lim);
        proof {
            lemma_chain_nonempty(*self);
        }
        let mut attempt: usize = 0;
        loop
            invariant
                c0 == chain(*old(self)),
                l0 == labels(*old(self)),
                rbn_ends(c0, lim),
                e0 == old(self).errs,
                o0 == old(self).ops,
                jl == min5(lim),
                c0.len() >= 1,
                c0[0] == (e0, o0),
                attempt <= fail_iters(e0, lim),
                e0 != usize::MAX ==> attempt <= e0,
                lim > 0 ==> attempt < lim || (e0 == 0 && attempt == 0),
                self.errs == if e0 == usize::MAX { e0 } else { (e0 - attempt) as usize },
                self.ops == wrap_add(o0, attempt as nat),
                chain(*self) == seq![(self.errs, self.ops)] + rbn_times(c0.drop_first(), jl, attempt as nat),
                labels(*self) == l0,
                out@ == old(out)@,
            decreases if e0 == usize::MAX { lim - attempt } else { e0 - attempt },
        {
            proof {
                lemma_chain_nonempty(*self);
                lemma_rbn_times_len(c0.drop_first(), jl, attempt as nat);
                lemma_rbn_times_len(c0.drop_first(), jl, attempt as nat + 1);
                if lim == 0 {
                    assert(c0[0].0 != usize::MAX);
                }
            }
            attempt = attempt + 1;
            self.ops = bump(self.ops);
            let rem = self.errs;
            if rem == 0 {
                fill_pattern(out);
                proof {
                    lemma_chain_nonempty(*self);
                    assert(chain(*self) =~= rbn_chain(c0, lim));
                }
                return Ok(attempt);
            }
            if rem != usize::MAX {
                self.errs = rem - 1;
            }
            let j = self.journal.take();
            match j {
                Some(mut jb) => {
                    let ghost jc = chain(*jb);
                    proof {
                        assert(jc == rbn_times(c0.drop_first(), jl, (attempt - 1) as nat));
                        lemma_rbn_ends_times(c0.drop_first(), jl, (attempt - 1) as nat);
                        assert(rbn_ends(c0.drop_first(), jl));
                    }
                    let mut tb: Vec<u8> = vec![0u8; 8];
                    let l = if lim < 5 { lim } else { 5 };
                    let _ = jb.read_block_n(blk, tb.as_mut_slice(), l);
                    self.journal = Some(jb);
                    proof {
                        lemma_chain_nonempty(*self);
                    }
                },
                None => {
                    self.journal = None;
                    proof {
                        lemma_chain_nonempty(*self);
                        assert(rbn_times(c0.drop_first(), jl, (attempt - 1) as nat).len() == 0);
                        assert(rbn_times(c0.drop_first(), jl, attempt as nat).len() == 0);
                    }
                },
            }
            proof {
                assert(chain(*self) =~= seq![(self.errs, self.ops)] + rbn_times(c0.drop_first(), jl, attempt as nat));
            }
            if lim > 0 && attempt >= lim {
                proof {
                    assert(chain(*self) =~= rbn_chain(c0, lim));
                }
                return Err("limit");
            }
        }
    }

    /// Reads a block, retrying until it succeeds; every failed attempt
    /// consults the journal with a limit of 5. The buffer is filled with 0xAA.
    pub fn read_block(&mut self, blk: usize, out: &mut [u8]) -> (r: Result<(), &'static str>)
        requires
            old(self).errs != usize::MAX,
        ensures
            r == Ok::<(), &'static str>(()),
            final(out)@ == Seq::new(old(out)@.len(), |i: int| 0xAAu8),
            chain(*final(self)) == seq![(0usize, wrap_add(old(self).ops, old(self).errs as nat + 1))]
                + rbn_times(chain(*old(self)).drop_first(), 5, old(self).errs as nat),
            labels(*final(self)) == labels(*old(self)),
    {
        let ghost c0 = chain(*self);
        let ghost e0 = self.errs;
        let ghost o0 = self.ops;
        let ghost l0 = labels(*self);
        proof {
            lemma_chain_nonempty(*self);
        }
        let mut done: usize = 0;
        loop
            invariant
                c0 == chain(*old(self)),
                l0 == labels(*old(self)),
                e0 == old(self).errs,
                o0 == old(self).ops,
                e0 != usize::MAX,
                done <= e0,
                self.errs == (e0 - done) as usize,
                self.ops == wrap_add(o0, done as nat),
                chain(*self) == seq![(self.errs, self.ops)] + rbn_times(c0.drop_first(), 5, done as nat),
                labels(*self) == l0,
                out@ == old(out)@,
            decreases e0 - done,
        {
            proof {
                lemma_chain_nonempty(*self);
                lemma_rbn_times_len(c0.drop_first(), 5, done as nat);
                lemma_rbn_times_len(c0.drop_first(), 5, done as nat + 1);
            }
            self.ops = bump(self.ops);
            let rem = self.errs;
            if rem == 0 {
                fill_byte(out, 0xAA);
                proof {
                    lemma_chain_nonempty(*self);
                    assert(chain(*self) =~= seq![(0usize, wrap_add(o0, e0 as nat + 1))]
                        + rbn_times(c0.drop_first(), 5, e0 as nat));
                }
                return Ok(());
            }
            self.errs = rem - 1;
            let j = self.journal.take();
            match j {
                Some(mut jb) => {
                    proof {
                        let s0 = rbn_times(c0.drop_first(), 5, done as nat);
                        assert((seq![(rem, self.ops)] + s0).drop_first() =~= s0);
                        assert(chain(*jb) == s0);
                    }
                    let mut tb: Vec<u8> = vec![0u8; 8];
                    let _ = jb.read_block_n(blk, tb.as_mut_slice(), 5);
                    self.journal = Some(jb);
                    proof {
                        lemma_chain_nonempty(*self);
                    }
                },
                None => {
                    self.journal = None;
                    proof {
                        lemma_chain_nonempty(*self);
                        assert(rbn_times(c0.drop_first(), 5, done as nat).len() == 0);
                        assert(rbn_times(c0.drop_first(), 5, done as nat + 1).len() == 0);
                    }
                },
            }
            done = done + 1;
            proof {
                assert(chain(*self) =~= seq![(self.errs, self.ops)] + rbn_times(c0.drop_first(), 5, done as nat));
            }
        }
    }

    pub fn total_ops(&self) -> (r: usize)
        ensures
            r == self.ops,
    {
        self.ops
    }

    pub fn reset_ops(&mut self)
        ensures
            final(self).ops == 0,
            final(self).errs == old(self).errs,
            final(self).label == old(self).label,
            final(self).journal == old(self).journal,
    {
        self.ops = 0;
    }

    /// Writes a block: fails while failures are pending, using one up.
    pub fn write_block(&mut self, blk: usize, data: &[u8]) -> (r: Result<(), &'static str>)
        ensures
            final(self).ops == wrap_inc(old(self).ops),
            old(self).errs == 0 ==> r == Ok::<(), &'static str>(()) && final(self).errs == 0,
            old(self).errs != 0 ==> r == Err::<(), &'static str>("io_error")
                && final(self).errs == if old(self).errs == usize::MAX { old(self).errs } else { (old(self).errs - 1) as usize },
            final(self).label == old(self).label,
            final(self).journal == old(self).journal,
    {
        self.ops = bump(self.ops);
        let rem = self.errs;
        if rem != 0 {
            if rem != usize::MAX {
                self.errs = rem - 1;
            }
            return Err("io_error");
        }
        Ok(())
    }

    /// Flushes the disk and its journal: one operation on each.
    pub fn flush(&mut self) -> (r: Result<(), &'static str>)
        ensures
            r == Ok::<(), &'static str>(()),
            final(self).ops == wrap_inc(old(self).ops),
            final(self).errs == old(self).errs,
            final(self).label == old(self).label,
            old(self).journal is None ==> final(self).journal is None,
            old(self).journal matches Some(j) ==> final(self).journal matches Some(k)
                && k.ops == wrap_inc(j.ops) && k.errs == j.errs && k.label == j.label && k.journal == j.journal,
    {
        self.ops = bump(self.ops);
        let j = self.journal.take();
        match j {
            Some(mut jb) => {
                jb.ops = bump(jb.ops);
                self.journal = Some(jb);
            },
            None => {
                self.journal = None;
            },
        }
        Ok(())
    }
}

} // verus!
