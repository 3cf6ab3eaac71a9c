//! A binary buddy allocator over page frames: free blocks of `2^o` pages
//! are kept in one list per order `o`.
use vstd::prelude::*;
use vstd::arithmetic::power2::pow2;
use crate::consts::PAGE_SIZE;

verus! {

pub struct BuddyAllocator {
    pub free_lists: Vec<Vec<usize>>,
    pub max_order: usize,
    pub base_addr: usize,
    pub total_pages: usize,
    pub allocated: usize,
}

/// The number of pages held by the lists of the orders below `n`.
pub open spec fn pages_below(lists: Seq<Seq<usize>>, n: int) -> nat
    decreases n,
{
    if n <= 0 {
        0
    } else {
        pages_below(lists, n - 1) + lists[n - 1].len() * pow2((n - 1) as nat)
    }
}

/// The number of free pages held by all the lists.
pub open spec fn total_free(lists: Seq<Seq<usize>>) -> nat {
    pages_below(lists, lists.len() as int)
}

/// `o` is the lowest order from `order` on whose list is not empty.
pub open spec fn first_nonempty(lists: Seq<Seq<usize>>, order: int, o: int) -> bool {
    &&& order <= o < lists.len()
    &&& lists[o].len() > 0
    &&& forall|k: int| order <= k < o ==> #[trigger] lists[k].len() == 0
}

/// The lists after a block of order `o` at `addr` is taken from the end of
/// its list and split down to order `order`: each order `c` in
/// `[order, o)` gets the upper half `addr + 2^c pages`.
pub open spec fn split_lists(lists: Seq<Seq<usize>>, order: int, o: int, addr: usize) -> Seq<Seq<usize>> {
    Seq::new(
        lists.len(),
        |c: int|
            if c == o {
                lists[o].drop_last()
            } else if order <= c < o {
                lists[c].push((addr + pow2(c as nat) * PAGE_SIZE) as usize)
            } else {
                lists[c]
            },
    )
}

/// The result of giving back the block of order `order` at `addr`: while
/// its buddy (`addr ^ 2^order pages`) is free at the same order, the two
/// merge into the block of the next order at the lower address; the block
/// that cannot merge further joins the end of its list.
pub open spec fn coalesce(lists: Seq<Seq<usize>>, addr: usize, order: int, max_order: int) -> Seq<Seq<usize>>
    decreases max_order - order,
{
    if order < max_order {
        let size = (pow2(order as nat) * PAGE_SIZE) as usize;
        let buddy = addr ^ size;
        if lists[order].contains(buddy) {
            let pos = first_pos(lists[order], buddy);
            let merged = if addr < buddy { addr } else { buddy };
            coalesce(
                lists.update(order, lists[order].remove(pos)),
                merged,
                order + 1,
                max_order,
            )
        } else {
            lists.update(order, lists[order].push(addr))
        }
    } else {
        lists.update(order, lists[order].push(addr))
    }
}

impl BuddyAllocator {
    pub open spec fn lists(&self) -> Seq<Seq<usize>> {
        Seq::new(self.free_lists@.len(), |o: int| self.free_lists@[o]@)
    }

    /// One list per order up to `max_order`, and every listed block has an
    /// address range that fits in a word.
    pub open spec fn wf(&self) -> bool {
        &&& self.free_lists@.len() == self.max_order + 1
        &&& self.max_order < usize::BITS
        &&& forall|o: int, k: int|
            0 <= o < self.lists().len() && 0 <= k < self.lists()[o].len() ==> #[trigger] self.lists()[o][k]
                + pow2(o as nat) * PAGE_SIZE <= usize::MAX
    }

    /// The free pages and the allocated count add up to the allocator's pages.
    pub open spec fn balanced(&self) -> bool {
        total_free(self.lists()) + self.allocated == self.total_pages
    }
}

/// `2^n`, for a shift that fits in the word.
fn pow2_word(n: usize) -> (r: usize)
    requires
        n < usize::BITS,
    ensures
        r == pow2(n as nat),
{
    proof {
        vstd::bits::lemma_usize_pow2_no_overflow(n as nat);
        vstd::bits::lemma_usize_shl_is_mul(1, n);
    }
    1usize << n
}

proof fn lemma_pow2_mono(a: nat, b: nat)
    requires
        a <= b,
    ensures
        pow2(a) <= pow2(b),
{
    if a < b {
        vstd::arithmetic::power2::lemma_pow2_strictly_increases(a, b);
    }
}

impl BuddyAllocator {
    /// Takes a block of `2^order` pages: the last block of the lowest
    /// non-empty order from `order` on, split down to `order`. `None` when
    /// `order` is above `max_order` or no list from `order` on has a block.
    pub fn alloc_order(&mut self, order: usize) -> (r: Option<usize>)
        requires
            old(self).wf(),
        ensures
            final(self).wf(),
            final(self).max_order == old(self).max_order,
            final(self).base_addr == old(self).base_addr,
            final(self).total_pages == old(self).total_pages,
            order > old(self).max_order ==> r is None && *final(self) == *old(self),
            order <= old(self).max_order ==> match r {
                None => (forall|k: int| order <= k < old(self).lists().len() ==> #[trigger] old(self).lists()[k].len() == 0)
                    && final(self).lists() == old(self).lists()
                    && final(self).allocated == old(self).allocated,
                Some(addr) => exists|o: int|
                    #[trigger] first_nonempty(old(self).lists(), order as int, o)
                        && addr == old(self).lists()[o].last()
                        && final(self).lists() == split_lists(old(self).lists(), order as int, o, addr)
                        && final(self).allocated == vstd::wrapping::usize_specs::wrapping_add(
                            old(self).allocated,
                            pow2(order as nat) as usize,
                        ),
            },
            blocks_apart(old(self).lists()) ==> blocks_apart(final(self).lists()),
            blocks_apart(old(self).lists()) ==> (r matches Some(addr) ==> block_clear(final(self).lists(), addr as int, order as nat)),
            old(self).balanced() && old(self).allocated + pow2(order as nat) <= usize::MAX ==> final(self).balanced(),
    {
        if order > self.max_order {
            return None;
        }
        let ghost l0 = self.lists();
        let mut o = order;
        while o <= self.max_order
            invariant
                self.wf(),
                *self == *old(self),
                l0 == old(self).lists(),
                order <= o <= self.max_order + 1,
                forall|k: int| order <= k < o ==> #[trigger] l0[k].len() == 0,
            decreases self.max_order + 1 - o,
        {
            if self.free_lists[o].len() > 0 {
                let addr = self.free_lists[o].pop().unwrap();
                assert(l0[o as int].len() > 0);
                let mut current = o;
                while current > order
                    invariant
                        order <= current <= o <= self.max_order,
                        self.max_order == old(self).max_order,
                        self.base_addr == old(self).base_addr,
                        self.total_pages == old(self).total_pages,
                        self.allocated == old(self).allocated,
                        old(self).wf(),
                        l0 == old(self).lists(),
                        self.free_lists@.len() == l0.len(),
                        addr == l0[o as int].last(),
                        first_nonempty(l0, order as int, o as int),
                        self.lists() == Seq::new(
                            l0.len(),
                            |c: int|
                                if c == o {
                                    l0[o as int].drop_last()
                                } else if current <= c < o {
                                    l0[c].push((addr + pow2(c as nat) * PAGE_SIZE) as usize)
                                } else {
                                    l0[c]
                                },
                        ),
                    decreases current,
                {
                    current -= 1;
                    proof {
                        lemma_pow2_mono(current as nat, o as nat);
                        let last = (l0[o as int].len() - 1) as int;
                        assert(old(self).lists()[o as int][last] == addr);
                        assert(addr + pow2(o as nat) * PAGE_SIZE <= usize::MAX);
                        assert(pow2(current as nat) * PAGE_SIZE <= pow2(o as nat) * PAGE_SIZE) by (nonlinear_arith)
                            requires pow2(current as nat) <= pow2(o as nat);
                    }
                    let buddy = addr + pow2_word(current) * PAGE_SIZE;
                    let ghost before = self.lists();
                    self.free_lists[current].push(buddy);
                    proof {
                        assert(self.free_lists@[current as int]@ == before[current as int].push(buddy));
                        assert forall|c: int| 0 <= c < l0.len() && c != current implies self.free_lists@[c]@ == #[trigger] before[c] by {
                        }
                        assert(before[current as int] == l0[current as int]);
                        assert(buddy == (addr + pow2(current as nat) * PAGE_SIZE) as usize);
                        assert(self.lists()[current as int] == l0[current as int].push((addr + pow2(current as nat) * PAGE_SIZE) as usize));
                        let target = Seq::new(
                            l0.len(),
                            |c: int|
                                if c == o {
                                    l0[o as int].drop_last()
                                } else if current <= c < o {
                                    l0[c].push((addr + pow2(c as nat) * PAGE_SIZE) as usize)
                                } else {
                                    l0[c]
                                },
                        );
                        assert forall|c: int| 0 <= c < l0.len() implies #[trigger] self.lists()[c] == target[c] by {
                            if c != current {
                                assert(self.free_lists@[c]@ == before[c]);
                            }
                        }
                        assert(self.lists() =~= target);
                    }
                }
                self.allocated = self.allocated.wrapping_add(pow2_word(order));
                proof {
                    assert(self.lists() =~= split_lists(l0, order as int, o as int, addr));
                    lemma_split_wf(*old(self), *self, order as int, o as int, addr);
                    if blocks_apart(l0) {
                        let last = (l0[o as int].len() - 1) as int;
                        assert(old(self).lists()[o as int][last] == addr);
                        lemma_split_apart(l0, order as int, o as int, addr);
                    }
                    if old(self).balanced() && old(self).allocated + pow2(order as nat) <= usize::MAX {
                        law_alloc_keeps_account(l0, old(self).allocated, old(self).total_pages as int, order as int, o as int, addr);
                    }
                }
                return Some(addr);
            }
            o += 1;
        }
        None
    }
}

/// Splitting keeps every block's range inside the word.
proof fn lemma_split_wf(a: BuddyAllocator, b: BuddyAllocator, order: int, o: int, addr: usize)
    requires
        a.wf(),
        first_nonempty(a.lists(), order, o),
        addr == a.lists()[o].last(),
        b.lists() == split_lists(a.lists(), order, o, addr),
        b.max_order == a.max_order,
        b.free_lists@.len() == a.free_lists@.len(),
    ensures
        b.wf(),
{
    assert forall|c: int, k: int|
        0 <= c < b.lists().len() && 0 <= k < b.lists()[c].len() implies #[trigger] b.lists()[c][k]
            + pow2(c as nat) * PAGE_SIZE <= usize::MAX by {
        if order <= c < o && k == a.lists()[c].len() {
            let last = a.lists()[o].len() - 1;
            assert(a.lists()[o][last] == addr);
            assert(addr + pow2(o as nat) * PAGE_SIZE <= usize::MAX);
            lemma_pow2_adds(c as nat, 1);
            vstd::arithmetic::power2::lemma2_to64();
            lemma_pow2_mono((c + 1) as nat, o as nat);
            assert(pow2(c as nat) * PAGE_SIZE + pow2(c as nat) * PAGE_SIZE <= pow2(o as nat) * PAGE_SIZE) by (nonlinear_arith)
                requires pow2((c + 1) as nat) == pow2(c as nat) * pow2(1), pow2(1) == 2, pow2((c + 1) as nat) <= pow2(o as nat);
        } else if c == o {
            assert(b.lists()[c][k] == a.lists()[o][k]);
        } else if order <= c < o {
            assert(b.lists()[c][k] == a.lists()[c][k]);
        }
    }
}

/// `i` is the first position of `x` in `s`.
pub open spec fn is_first_pos(s: Seq<usize>, x: usize, i: int) -> bool {
    &&& 0 <= i < s.len()
    &&& s[i] == x
    &&& forall|j: int| 0 <= j < i ==> s[j] != x
}

pub open spec fn first_pos(s: Seq<usize>, x: usize) -> int {
    choose|i: int| is_first_pos(s, x, i)
}

proof fn lemma_first_pos_exists(s: Seq<usize>, x: usize)
    requires
        s.contains(x),
    ensures
        is_first_pos(s, x, first_pos(s, x)),
{
    s.index_of_first_ensures(x);
    let i = s.index_of_first(x).unwrap();
    assert(is_first_pos(s, x, i));
}

/// A block of `2^o` pages, in bytes, has a single bit set.
proof fn lemma_pow2_block_single(o: nat)
    requires
        pow2(o) * PAGE_SIZE <= usize::MAX,
    ensures
        single_bit_word((pow2(o) * PAGE_SIZE) as usize),
{
    vstd::arithmetic::power2::lemma2_to64();
    lemma_pow2_adds(o, 12);
    let k = o + 12;
    let size = (pow2(o) * PAGE_SIZE) as usize;
    assert(pow2(k) == pow2(o) * PAGE_SIZE);
    if k >= usize::BITS {
        vstd::bits::lemma_usize_pow2_no_overflow((usize::BITS - 1) as nat);
        lemma_pow2_mono(usize::BITS as nat, k);
        assert(pow2(usize::BITS as nat) == 2 * pow2((usize::BITS - 1) as nat)) by {
            vstd::arithmetic::power2::lemma_pow2_unfold(usize::BITS as nat);
        }
        vstd::layout::unsigned_int_max_values();
        assert(false);
    }
    let kk = k as usize;
    vstd::bits::lemma_usize_shl_is_mul(1, kk);
    assert(size == 1usize << kk);
    assert((1usize << kk) & (((1usize << kk) - 1) as usize) == 0) by (bit_vector)
        requires kk < usize::BITS;
}

proof fn lemma_first_pos(s: Seq<usize>, x: usize, i: int)
    requires
        is_first_pos(s, x, i),
    ensures
        first_pos(s, x) == i,
{
    let k = first_pos(s, x);
    assert(is_first_pos(s, x, k));
    if k < i {
        assert(s[k] != x);
    }
    if i < k {
        assert(s[i] != x);
    }
}

/// The block lists are as many as the orders, and a block of the top order
/// still has an address range that fits in a word.
pub open spec fn shape(b: &BuddyAllocator) -> bool {
    &&& b.free_lists@.len() == b.max_order + 1
    &&& b.max_order < usize::BITS
    &&& pow2(b.max_order as nat) * PAGE_SIZE <= usize::MAX
}

/// Every listed block of order `o` ends inside the word.
pub open spec fn blocks_fit(lists: Seq<Seq<usize>>) -> bool {
    forall|o: int, k: int|
        0 <= o < lists.len() && 0 <= k < lists[o].len() ==> #[trigger] lists[o][k] + pow2(o as nat) * PAGE_SIZE
            <= usize::MAX
}


/// Finds the first position of `x` in `v`.
fn position_of(v: &Vec<usize>, x: usize) -> (r: Option<usize>)
    ensures
        r matches Some(i) ==> is_first_pos(v@, x, i as int),
        r is None ==> !v@.contains(x),
{
    let mut i: usize = 0;
    while i < v.len()
        invariant
            i <= v.len(),
            forall|j: int| 0 <= j < i ==> v@[j] != x,
        decreases v.len() - i,
    {
        if v[i] == x {
            return Some(i);
        }
        i += 1;
    }
    None
}

impl BuddyAllocator {
    /// Gives back the block of `2^order` pages at `addr`, merging it with
    /// its free buddies (see `coalesce`); an order above `max_order` is
    /// ignored. The allocated count goes down by `2^order`, wrapping.
    pub fn free_order(&mut self, addr: usize, order: usize)
        requires
            shape(old(self)),
        ensures
            shape(final(self)),
            final(self).max_order == old(self).max_order,
            final(self).base_addr == old(self).base_addr,
            final(self).total_pages == old(self).total_pages,
            order > old(self).max_order ==> *final(self) == *old(self),
            order <= old(self).max_order ==> final(self).lists() == coalesce(old(self).lists(), addr, order as int, old(self).max_order as int)
                && final(self).allocated == vstd::wrapping::usize_specs::wrapping_sub(old(self).allocated, pow2(order as nat) as usize),
            old(self).wf() && order <= old(self).max_order && addr + pow2(order as nat) * PAGE_SIZE <= usize::MAX
                ==> final(self).wf(),
            old(self).wf() && order <= old(self).max_order && addr + pow2(order as nat) * PAGE_SIZE <= usize::MAX
                && blocks_apart(old(self).lists()) && block_clear(old(self).lists(), addr as int, order as nat)
                ==> blocks_apart(final(self).lists()),
            old(self).balanced() && old(self).allocated >= pow2(order as nat) ==> final(self).balanced(),
    {
        if order > self.max_order {
            return;
        }
        let ghost l0 = self.lists();
        let mut current_addr = addr;
        let mut current_order = order;
        while current_order < self.max_order
            invariant
                shape(self),
                self.max_order == old(self).max_order,
                self.base_addr == old(self).base_addr,
                self.total_pages == old(self).total_pages,
                self.allocated == old(self).allocated,
                l0 == old(self).lists(),
                order <= current_order <= self.max_order,
                coalesce(self.lists(), current_addr, current_order as int, self.max_order as int)
                    == coalesce(l0, addr, order as int, self.max_order as int),
            ensures
                shape(self),
                self.max_order == old(self).max_order,
                self.base_addr == old(self).base_addr,
                self.total_pages == old(self).total_pages,
                self.allocated == old(self).allocated,
                order <= current_order <= self.max_order,
                coalesce(self.lists(), current_addr, current_order as int, self.max_order as int)
                    == coalesce(l0, addr, order as int, self.max_order as int),
                coalesce(self.lists(), current_addr, current_order as int, self.max_order as int)
                    == self.lists().update(current_order as int, self.lists()[current_order as int].push(current_addr)),
            decreases self.max_order - current_order,
        {
            proof {
                lemma_pow2_mono(current_order as nat, self.max_order as nat);
                assert(pow2(current_order as nat) * PAGE_SIZE <= pow2(self.max_order as nat) * PAGE_SIZE) by (nonlinear_arith)
                    requires pow2(current_order as nat) <= pow2(self.max_order as nat);
            }
            let block_size = pow2_word(current_order) * PAGE_SIZE;
            let buddy_addr = current_addr ^ block_size;
            match position_of(&self.free_lists[current_order], buddy_addr) {
                Some(pos) => {
                    let ghost before = self.lists();
                    proof {
                        lemma_first_pos(before[current_order as int], buddy_addr, pos as int);
                        assert(block_size == (pow2(current_order as nat) * PAGE_SIZE) as usize);
                        assert(before[current_order as int].contains(buddy_addr));
                    }
                    self.free_lists[current_order].remove(pos);
                    let merged = if current_addr < buddy_addr { current_addr } else { buddy_addr };
                    proof {
                        assert(self.lists() =~= before.update(
                            current_order as int,
                            before[current_order as int].remove(pos as int),
                        ));
                    }
                    current_addr = merged;
                    current_order += 1;
                }
                None => {
                    proof {
                        assert(block_size == (pow2(current_order as nat) * PAGE_SIZE) as usize);
                        assert(coalesce(self.lists(), current_addr, current_order as int, self.max_order as int)
                            == self.lists().update(current_order as int, self.lists()[current_order as int].push(current_addr)));
                    }
                    break;
                }
            }
        }
        let ghost before = self.lists();
        assert(coalesce(before, current_addr, current_order as int, self.max_order as int)
            == before.update(current_order as int, before[current_order as int].push(current_addr)));
        self.free_lists[current_order].push(current_addr);
        proof {
            assert(self.lists() =~= before.update(
                current_order as int,
                before[current_order as int].push(current_addr),
            ));
        }
        self.allocated = self.allocated.wrapping_sub(pow2_word(order));
        proof {
            if old(self).wf() && addr + pow2(order as nat) * PAGE_SIZE <= usize::MAX {
                lemma_coalesce_fits(l0, addr, order as int, self.max_order as int);
                if blocks_apart(l0) && block_clear(l0, addr as int, order as nat) {
                    lemma_coalesce_apart(l0, addr, order as int, self.max_order as int);
                }
            }
            if old(self).balanced() && old(self).allocated >= pow2(order as nat) {
                law_free_keeps_account(l0, old(self).allocated, old(self).total_pages as int, addr, order as int, self.max_order as int);
            }
        }
    }
}

/// Merging keeps every block's range inside the word, when the returned
/// block's range is.
proof fn lemma_coalesce_fits(lists: Seq<Seq<usize>>, addr: usize, order: int, max_order: int)
    requires
        0 <= order <= max_order,
        lists.len() == max_order + 1,
        blocks_fit(lists),
        addr + pow2(order as nat) * PAGE_SIZE <= usize::MAX,
    ensures
        blocks_fit(coalesce(lists, addr, order, max_order)),
        coalesce(lists, addr, order, max_order).len() == lists.len(),
    decreases max_order - order,
{
    let size = (pow2(order as nat) * PAGE_SIZE) as usize;
    let buddy = addr ^ size;
    if order < max_order && lists[order].contains(buddy) {
        let pos = first_pos(lists[order], buddy);
        lemma_first_pos_exists(lists[order], buddy);
        let merged = if addr < buddy { addr } else { buddy };
        let l2 = lists.update(order, lists[order].remove(pos));
        assert(lists[order][pos] == buddy);
        assert(buddy + pow2(order as nat) * PAGE_SIZE <= usize::MAX);
        vstd::arithmetic::power2::lemma_pow2_unfold((order + 1) as nat);
        vstd::arithmetic::power2::lemma_pow2_pos(order as nat);
        assert(merged + pow2((order + 1) as nat) * PAGE_SIZE <= usize::MAX) by {
            lemma_pow2_block_single(order as nat);
            lemma_buddy_span(addr, buddy, size, pow2(order as nat) * PAGE_SIZE);
        }
        assert(blocks_fit(l2)) by {
            assert forall|o: int, k: int| 0 <= o < l2.len() && 0 <= k < l2[o].len() implies #[trigger] l2[o][k]
                + pow2(o as nat) * PAGE_SIZE <= usize::MAX by {
                if o == order {
                    if k < pos {
                        assert(l2[o][k] == lists[o][k]);
                    } else {
                        assert(l2[o][k] == lists[o][k + 1]);
                    }
                }
            }
        }
        lemma_coalesce_fits(l2, merged, order + 1, max_order);
    } else {
        let l2 = lists.update(order, lists[order].push(addr));
        assert forall|o: int, k: int| 0 <= o < l2.len() && 0 <= k < l2[o].len() implies #[trigger] l2[o][k]
            + pow2(o as nat) * PAGE_SIZE <= usize::MAX by {
            if o == order && k < lists[order].len() {
                assert(l2[o][k] == lists[o][k]);
            }
        }
    }
}

/// Giving back a block that meets no listed block keeps the listed blocks
/// apart: a block and its free buddy are neighbours, so the block they
/// merge into meets nothing that met neither of them.
#[verifier::spinoff_prover]
#[verifier::rlimit(60)]
proof fn lemma_coalesce_apart(lists: Seq<Seq<usize>>, addr: usize, order: int, max_order: int)
    requires
        0 <= order <= max_order,
        lists.len() == max_order + 1,
        pow2(max_order as nat) * PAGE_SIZE <= usize::MAX,
        blocks_fit(lists),
        addr + pow2(order as nat) * PAGE_SIZE <= usize::MAX,
        blocks_apart(lists),
        block_clear(lists, addr as int, order as nat),
    ensures
        blocks_apart(coalesce(lists, addr, order, max_order)),
    decreases max_order - order,
{
    let sz = pow2(order as nat) * PAGE_SIZE;
    let size = sz as usize;
    let buddy = addr ^ size;
    vstd::arithmetic::power2::lemma_pow2_pos(order as nat);
    if order < max_order && lists[order].contains(buddy) {
        let pos = first_pos(lists[order], buddy);
        lemma_first_pos_exists(lists[order], buddy);
        let merged = if addr < buddy { addr } else { buddy };
        let l2 = lists.update(order, lists[order].remove(pos));
        assert(lists[order][pos] == buddy);
        lemma_pow2_mono(order as nat, max_order as nat);
        assert(sz <= pow2(max_order as nat) * PAGE_SIZE) by (nonlinear_arith)
            requires
                pow2(order as nat) <= pow2(max_order as nat),
                sz == pow2(order as nat) * PAGE_SIZE;
        lemma_pow2_block_single(order as nat);
        assert((addr < buddy ==> buddy == addr + size) && (addr >= buddy ==> addr == buddy + size)) by {
            lemma_buddy_bits(addr, buddy, size);
        }
        vstd::arithmetic::power2::lemma_pow2_unfold((order + 1) as nat);
        assert(pow2((order + 1) as nat) * PAGE_SIZE == 2 * sz);
        assert forall|o: int, k: int| 0 <= o < l2.len() && 0 <= k < l2[o].len() implies #[trigger] l2[o][k]
            + pow2(o as nat) * PAGE_SIZE <= usize::MAX by {
            if o == order {
                if k < pos {
                    assert(l2[o][k] == lists[o][k]);
                } else {
                    assert(l2[o][k] == lists[o][k + 1]);
                }
            }
        }
        // Each entry of `l2` is an entry of `lists` other than the buddy.
        assert forall|o: int, k: int| 0 <= o < l2.len() && 0 <= k < l2[o].len() implies exists|j: int|
            0 <= j < lists[o].len() && (o != order || j != pos) && #[trigger] l2[o][k] == lists[o][j] by {
            if o == order {
                if k < pos {
                    assert(l2[o][k] == lists[o][k]);
                } else {
                    assert(l2[o][k] == lists[o][k + 1]);
                }
            } else {
                assert(l2[o][k] == lists[o][k]);
            }
        }
        assert forall|o1: int, k1: int, o2: int, k2: int|
            #![trigger l2[o1][k1], l2[o2][k2]]
            0 <= o1 < l2.len() && 0 <= k1 < l2[o1].len() && 0 <= o2 < l2.len() && 0 <= k2 < l2[o2].len() && (o1 != o2
                || k1 != k2) implies l2[o1][k1] + pow2(o1 as nat) * PAGE_SIZE <= l2[o2][k2] || l2[o2][k2] + pow2(
            o2 as nat,
        ) * PAGE_SIZE <= l2[o1][k1] by {
            let j1 = if o1 == order && k1 >= pos { k1 + 1 } else { k1 };
            let j2 = if o2 == order && k2 >= pos { k2 + 1 } else { k2 };
            assert(l2[o1][k1] == lists[o1][j1]);
            assert(l2[o2][k2] == lists[o2][j2]);
            assert(lists[o1][j1] + pow2(o1 as nat) * PAGE_SIZE <= lists[o2][j2] || lists[o2][j2] + pow2(o2 as nat)
                * PAGE_SIZE <= lists[o1][j1]);
        }
        assert forall|o: int, k: int|
            #![trigger l2[o][k]]
            0 <= o < l2.len() && 0 <= k < l2[o].len() implies l2[o][k] + pow2(o as nat) * PAGE_SIZE <= merged || merged
            + pow2((order + 1) as nat) * PAGE_SIZE <= l2[o][k] by {
            let j = if o == order && k >= pos { k + 1 } else { k };
            assert(l2[o][k] == lists[o][j]);
            vstd::arithmetic::power2::lemma_pow2_pos(o as nat);
            assert(pow2(o as nat) * PAGE_SIZE > 0) by (nonlinear_arith)
                requires
                    pow2(o as nat) > 0;
            assert(lists[o][j] + pow2(o as nat) * PAGE_SIZE <= addr || addr + sz <= lists[o][j]);
            assert(lists[order][pos] == buddy);
            assert(lists[o][j] + pow2(o as nat) * PAGE_SIZE <= lists[order][pos] || lists[order][pos] + sz <= lists[o][j]);
        }
        assert(buddy + sz <= usize::MAX);
        lemma_coalesce_apart(l2, merged, order + 1, max_order);
    } else {
        let l2 = lists.update(order, lists[order].push(addr));
        assert forall|o1: int, k1: int, o2: int, k2: int|
            #![trigger l2[o1][k1], l2[o2][k2]]
            0 <= o1 < l2.len() && 0 <= k1 < l2[o1].len() && 0 <= o2 < l2.len() && 0 <= k2 < l2[o2].len() && (o1 != o2
                || k1 != k2) implies l2[o1][k1] + pow2(o1 as nat) * PAGE_SIZE <= l2[o2][k2] || l2[o2][k2] + pow2(
            o2 as nat,
        ) * PAGE_SIZE <= l2[o1][k1] by {
            let n1 = o1 == order && k1 == lists[order].len();
            let n2 = o2 == order && k2 == lists[order].len();
            if !n1 {
                assert(l2[o1][k1] == lists[o1][k1]);
            }
            if !n2 {
                assert(l2[o2][k2] == lists[o2][k2]);
            }
        }
    }
}

/// Two buddies are neighbours: one starts where the other ends.
proof fn lemma_buddy_bits(addr: usize, buddy: usize, size: usize)
    requires
        buddy == addr ^ size,
        single_bit_word(size),
        size > 0,
    ensures
        (addr < buddy ==> buddy == addr + size) && (addr >= buddy ==> addr == buddy + size),
{
    assert((addr < buddy ==> buddy == addr + size) && (addr >= buddy ==> addr == buddy + size)) by (bit_vector)
        requires
            buddy == addr ^ size,
            size & ((size - 1) as usize) == 0,
            size > 0;
}

/// A block and its buddy, both inside the word, span a block of twice the
/// size from the lower of the two.
proof fn lemma_buddy_span(addr: usize, buddy: usize, size: usize, sz: int)
    requires
        sz == size as int,
        size > 0,
        buddy == addr ^ size,
        addr + sz <= usize::MAX,
        buddy + sz <= usize::MAX,
        single_bit_word(size),
    ensures
        (if addr < buddy { addr } else { buddy }) + 2 * sz <= usize::MAX,
{
    lemma_buddy_bits(addr, buddy, size);
}

pub open spec fn single_bit_word(size: usize) -> bool {
    size & ((size - 1) as usize) == 0
}

proof fn lemma_pages_update(l: Seq<Seq<usize>>, o: int, s2: Seq<usize>, n: int)
    requires
        0 <= o < l.len(),
        0 <= n <= l.len(),
    ensures
        pages_below(l.update(o, s2), n) as int == pages_below(l, n) + if o < n {
            (s2.len() - l[o].len()) * pow2(o as nat)
        } else {
            0
        },
    decreases n,
{
    if n > 0 {
        lemma_pages_update(l, o, s2, n - 1);
        if n - 1 == o {
            assert((s2.len() - l[o].len()) * pow2(o as nat) == s2.len() * pow2(o as nat) - l[o].len() * pow2(o as nat))
                by (nonlinear_arith);
        }
    }
}

/// Giving back a block of `2^order` pages adds exactly `2^order` free
/// pages, however many merges follow.
pub proof fn law_free_adds_pages(lists: Seq<Seq<usize>>, addr: usize, order: int, max_order: int)
    requires
        0 <= order <= max_order,
        lists.len() == max_order + 1,
    ensures
        total_free(coalesce(lists, addr, order, max_order)) == total_free(lists) + pow2(order as nat),
    decreases max_order - order,
{
    let size = (pow2(order as nat) * PAGE_SIZE) as usize;
    let buddy = addr ^ size;
    if order < max_order && lists[order].contains(buddy) {
        let pos = first_pos(lists[order], buddy);
        lemma_first_pos_exists(lists[order], buddy);
        let merged = if addr < buddy { addr } else { buddy };
        let l2 = lists.update(order, lists[order].remove(pos));
        lemma_pages_update(lists, order, lists[order].remove(pos), lists.len() as int);
        assert(lists[order].remove(pos).len() == lists[order].len() - 1);
        assert((lists[order].remove(pos).len() - lists[order].len()) * pow2(order as nat) == -pow2(order as nat))
            by (nonlinear_arith)
            requires lists[order].remove(pos).len() == lists[order].len() - 1;
        law_free_adds_pages(l2, merged, order + 1, max_order);
        vstd::arithmetic::power2::lemma_pow2_unfold((order + 1) as nat);
        assert(coalesce(lists, addr, order, max_order) == coalesce(l2, merged, order + 1, max_order));
    } else {
        lemma_pages_update(lists, order, lists[order].push(addr), lists.len() as int);
        assert((lists[order].push(addr).len() - lists[order].len()) * pow2(order as nat) == pow2(order as nat))
            by (nonlinear_arith)
            requires lists[order].push(addr).len() == lists[order].len() + 1;
        assert(coalesce(lists, addr, order, max_order) == lists.update(order, lists[order].push(addr)));
    }
}

pub open spec fn clamp(n: int, lo: int, hi: int) -> int {
    if n < lo { lo } else if n > hi { hi } else { n }
}

proof fn lemma_split_pages(l: Seq<Seq<usize>>, order: int, o: int, addr: usize, n: int)
    requires
        0 <= order <= o < l.len(),
        l[o].len() > 0,
        0 <= n <= l.len(),
    ensures
        pages_below(split_lists(l, order, o, addr), n) as int == pages_below(l, n) - (if o < n {
            pow2(o as nat) as int
        } else {
            0
        }) + (pow2(clamp(n, order, o) as nat) - pow2(order as nat)),
    decreases n,
{
    if n > 0 {
        lemma_split_pages(l, order, o, addr, n - 1);
        let c = n - 1;
        let sp = split_lists(l, order, o, addr);
        if order <= c < o {
            assert(sp[c].len() == l[c].len() + 1);
            vstd::arithmetic::power2::lemma_pow2_unfold(n as nat);
            assert((l[c].len() + 1) * pow2(c as nat) == l[c].len() * pow2(c as nat) + pow2(c as nat)) by (nonlinear_arith);
        } else if c == o {
            assert(sp[c].len() == l[c].len() - 1);
            assert((l[c].len() - 1) * pow2(c as nat) == l[c].len() * pow2(c as nat) - pow2(c as nat)) by (nonlinear_arith);
        } else {
            assert(sp[c] == l[c]);
        }
    }
}

/// Taking a block of `2^order` pages removes exactly `2^order` free pages,
/// however far the block it comes from is split.
pub proof fn law_alloc_takes_pages(lists: Seq<Seq<usize>>, order: int, o: int, addr: usize)
    requires
        0 <= order,
        first_nonempty(lists, order, o),
    ensures
        total_free(split_lists(lists, order, o, addr)) + pow2(order as nat) == total_free(lists),
{
    lemma_split_pages(lists, order, o, addr, lists.len() as int);
}

/// The free pages and the allocated count add up to the allocator's pages
/// across a take: the block's `2^order` pages move from the lists to the
/// count (while the count stays inside the word).
pub proof fn law_alloc_keeps_account(lists: Seq<Seq<usize>>, allocated: usize, total: int, order: int, o: int, addr: usize)
    requires
        0 <= order,
        first_nonempty(lists, order, o),
        total_free(lists) + allocated == total,
        allocated + pow2(order as nat) <= usize::MAX,
    ensures
        total_free(split_lists(lists, order, o, addr)) + vstd::wrapping::usize_specs::wrapping_add(
            allocated,
            pow2(order as nat) as usize,
        ) == total,
{
    law_alloc_takes_pages(lists, order, o, addr);
}

/// The free pages and the allocated count add up to the allocator's pages
/// across a give-back of a block no larger than the count: its `2^order`
/// pages move from the count back to the lists.
pub proof fn law_free_keeps_account(lists: Seq<Seq<usize>>, allocated: usize, total: int, addr: usize, order: int, max_order: int)
    requires
        0 <= order <= max_order,
        lists.len() == max_order + 1,
        total_free(lists) + allocated == total,
        allocated >= pow2(order as nat),
    ensures
        total_free(coalesce(lists, addr, order, max_order)) + vstd::wrapping::usize_specs::wrapping_sub(
            allocated,
            pow2(order as nat) as usize,
        ) == total,
{
    law_free_adds_pages(lists, addr, order, max_order);
}

/// Every listed block lies inside `[lo, hi)`.
pub open spec fn blocks_within(lists: Seq<Seq<usize>>, lo: int, hi: int) -> bool {
    forall|o: int, k: int|
        0 <= o < lists.len() && 0 <= k < lists[o].len() ==> lo <= #[trigger] lists[o][k] && lists[o][k] + pow2(
            o as nat,
        ) * PAGE_SIZE <= hi
}

/// The highest order with a free block, 0 when there is none.
pub open spec fn largest_order(lists: Seq<Seq<usize>>, n: int) -> int
    decreases n,
{
    if n <= 0 {
        0
    } else if lists[n - 1].len() > 0 {
        n - 1
    } else {
        largest_order(lists, n - 1)
    }
}

/// The index of the highest set bit of `v` (0 for 0 and 1).
pub open spec fn log2_of(v: nat) -> nat
    decreases v,
{
    if v <= 1 { 0 } else { 1 + log2_of(v / 2) }
}

/// The order of the largest blocks a new allocator of `total` pages cuts.
pub open spec fn top_order(total: nat, max_order: nat) -> nat {
    if log2_of(total) < max_order { log2_of(total) } else { max_order }
}

/// The free lists of a new allocator over `total` pages from `base`, with
/// `n` orders and `u` the top order: `total / 2^u` blocks of order `u` one
/// after the other from `base`, then, for each set bit `o` below `u` of
/// the pages left over, one block of order `o`, larger blocks first.
pub open spec fn carved_lists(base: int, total: nat, u: nat, n: nat) -> Seq<Seq<usize>> {
    let p = pow2(u) as int;
    let q = total as int / p;
    let rest = total as int % p;
    Seq::new(
        n,
        |o: int|
            if o == u {
                Seq::new(q as nat, |j: int| (base + j * p * PAGE_SIZE) as usize)
            } else if 0 <= o < u && (rest / pow2(o as nat) as int) % 2 == 1 {
                seq![
                    (base + (q * p + rest / pow2((o + 1) as nat) as int * pow2((o + 1) as nat) as int) * PAGE_SIZE) as usize,
                ]
            } else {
                Seq::empty()
            },
    )
}

/// Listed blocks do not overlap: any two different entries are apart by
/// at least the size of the lower one.
pub open spec fn blocks_apart(lists: Seq<Seq<usize>>) -> bool {
    forall|o1: int, k1: int, o2: int, k2: int|
        #![trigger lists[o1][k1], lists[o2][k2]]
        0 <= o1 < lists.len() && 0 <= k1 < lists[o1].len() && 0 <= o2 < lists.len() && 0 <= k2 < lists[o2].len()
            && (o1 != o2 || k1 != k2) ==> lists[o1][k1] + pow2(o1 as nat) * PAGE_SIZE <= lists[o2][k2] || lists[o2][k2]
            + pow2(o2 as nat) * PAGE_SIZE <= lists[o1][k1]
}

/// Every listed block starts a whole number of its own sizes above `base`.
pub open spec fn blocks_aligned(lists: Seq<Seq<usize>>, base: int) -> bool {
    forall|o: int, k: int|
        #![trigger lists[o][k]]
        0 <= o < lists.len() && 0 <= k < lists[o].len() ==> (lists[o][k] - base) % (pow2(o as nat) * PAGE_SIZE) as int == 0
}

/// Where, in pages from the base, a new allocator puts its block of order
/// `o` below the top order `u`.
pub open spec fn small_off(total: nat, u: nat, o: nat) -> int {
    let p = pow2(u) as int;
    let rest = total as int % p;
    total as int / p * p + rest / pow2(o + 1) as int * pow2(o + 1) as int
}

proof fn lemma_small_block(total: nat, u: nat, o: nat)
    requires
        o < u,
        ((total as int % pow2(u) as int) / pow2(o) as int) % 2 == 1,
    ensures
        total as int / pow2(u) as int * pow2(u) as int <= small_off(total, u, o),
        small_off(total, u, o) + pow2(o) <= total,
        small_off(total, u, o) % pow2(o) as int == 0,
{
    let p = pow2(u) as int;
    let m = pow2(o) as int;
    let q = total as int / p;
    let rest = total as int % p;
    vstd::arithmetic::power2::lemma_pow2_pos(u);
    vstd::arithmetic::power2::lemma_pow2_pos(o);
    vstd::arithmetic::power2::lemma_pow2_unfold(o + 1);
    vstd::arithmetic::div_mod::lemma_fundamental_div_mod(total as int, p);
    vstd::arithmetic::div_mod::lemma_mod_bound(total as int, p);
    lemma_mod_double(rest, m);
    vstd::arithmetic::div_mod::lemma_mod_bound(rest, m);
    vstd::arithmetic::div_mod::lemma_mod_bound(rest, 2 * m);
    let hi = rest / (2 * m);
    assert(hi >= 0) by {
        vstd::arithmetic::div_mod::lemma_div_pos_is_pos(rest, 2 * m);
    }
    assert(m * 1 == m);
    assert(rest - rest % (2 * m) == hi * (2 * m));
    assert(hi * (2 * m) + m <= rest);
    assert(q * p >= 0) by (nonlinear_arith)
        requires
            q >= 0,
            p > 0;
    vstd::arithmetic::power2::lemma_pow2_adds((u - o) as nat, o);
    assert(((u - o) as nat + o) == u);
    let c = pow2((u - o) as nat) as int;
    assert(q * p == (q * c) * m) by (nonlinear_arith)
        requires
            p == c * m;
    assert(hi * (2 * m) == (hi * 2) * m) by (nonlinear_arith);
    assert(q * p + hi * (2 * m) == (q * c + hi * 2) * m) by (nonlinear_arith)
        requires
            q * p == (q * c) * m,
            hi * (2 * m) == (hi * 2) * m;
    vstd::arithmetic::div_mod::lemma_mod_multiples_basic(q * c + hi * 2, m);
}

proof fn lemma_small_pair(total: nat, u: nat, o1: nat, o2: nat)
    requires
        o1 < o2 < u,
        ((total as int % pow2(u) as int) / pow2(o2) as int) % 2 == 1,
    ensures
        small_off(total, u, o2) + pow2(o2) <= small_off(total, u, o1),
{
    let p = pow2(u) as int;
    let rest = total as int % p;
    let m1 = pow2(o1 + 1) as int;
    let m2 = pow2(o2) as int;
    vstd::arithmetic::power2::lemma_pow2_pos(u);
    vstd::arithmetic::power2::lemma_pow2_pos(o1 + 1);
    vstd::arithmetic::power2::lemma_pow2_pos(o2);
    vstd::arithmetic::power2::lemma_pow2_unfold(o2 + 1);
    vstd::arithmetic::div_mod::lemma_mod_bound(total as int, p);
    vstd::arithmetic::div_mod::lemma_fundamental_div_mod(rest, m1);
    vstd::arithmetic::div_mod::lemma_fundamental_div_mod(rest, 2 * m2);
    lemma_mod_double(rest, m2);
    assert(m2 * 1 == m2);
    vstd::arithmetic::power2::lemma_pow2_adds(o1 + 1, (o2 - o1 - 1) as nat);
    assert(o1 + 1 + (o2 - o1 - 1) as nat == o2);
    let c = pow2((o2 - o1 - 1) as nat) as int;
    vstd::arithmetic::power2::lemma_pow2_pos((o2 - o1 - 1) as nat);
    vstd::arithmetic::div_mod::lemma_mod_mod(rest, m1, c);
    vstd::arithmetic::div_mod::lemma_mod_bound(rest, m2);
    vstd::arithmetic::div_mod::lemma_mod_decreases((rest % m2) as nat, m1 as nat);
    assert(rest % m1 <= rest % m2);
    assert((rest / m2) % 2 == 1);
    assert(m2 * ((rest / m2) % 2) == m2);
    assert(rest % (2 * m2) == m2 + rest % m2);
    assert(pow2(o2 + 1) as int == 2 * m2);
    assert(rest / m1 * m1 == rest - rest % m1);
    assert(rest / (2 * m2) * (2 * m2) == rest - rest % (2 * m2));
}

/// Entry `k` of list `o` of a new allocator's lists, as a block `off`
/// pages above the base.
proof fn lemma_carved_entry(base: int, total: nat, u: nat, n: nat, o: int, k: int) -> (off: int)
    requires
        u < n,
        base >= 0,
        base + total * PAGE_SIZE <= usize::MAX,
        0 <= o < n,
        0 <= k < carved_lists(base, total, u, n)[o].len(),
    ensures
        carved_lists(base, total, u, n)[o][k] == base + off * PAGE_SIZE,
        off >= 0,
        off % pow2(o as nat) as int == 0,
        off + pow2(o as nat) <= total,
        o == u ==> off == k * pow2(u) && k < total as int / pow2(u) as int,
        o != u ==> o < u && k == 0 && off == small_off(total, u, o as nat) && ((total as int % pow2(u) as int)
            / pow2(o as nat) as int) % 2 == 1,
{
    let p = pow2(u) as int;
    let q = total as int / p;
    vstd::arithmetic::power2::lemma_pow2_pos(u);
    vstd::arithmetic::div_mod::lemma_fundamental_div_mod(total as int, p);
    vstd::arithmetic::div_mod::lemma_mod_bound(total as int, p);
    let off = if o == u {
        assert(k * p + p <= q * p) by (nonlinear_arith)
            requires
                k + 1 <= q,
                p > 0;
        assert(k * p >= 0) by (nonlinear_arith)
            requires
                k >= 0,
                p > 0;
        vstd::arithmetic::div_mod::lemma_mod_multiples_basic(k, p);
        k * p
    } else {
        lemma_small_block(total, u, o as nat);
        assert(total as int / p * p >= 0) by (nonlinear_arith)
            requires
                total as int / p >= 0,
                p > 0;
        small_off(total, u, o as nat)
    };
    assert(off * PAGE_SIZE <= total * PAGE_SIZE) by (nonlinear_arith)
        requires
            0 <= off <= total;
    if o == u {
        assert(k * p * PAGE_SIZE == off * PAGE_SIZE);
    } else {
        assert(pow2((o + 1) as nat) == pow2((o as nat) + 1));
    }
    off
}

/// The blocks a new allocator lists do not overlap, and each starts a
/// whole number of its own sizes above the base.
pub proof fn law_new_blocks_apart(base: usize, total: usize, max_order: usize)
    requires
        max_order < usize::MAX,
        base + total * PAGE_SIZE <= usize::MAX,
    ensures
        blocks_apart(carved_lists(base as int, total as nat, top_order(total as nat, max_order as nat), (max_order + 1) as nat)),
        blocks_aligned(carved_lists(base as int, total as nat, top_order(total as nat, max_order as nat), (max_order + 1) as nat), base as int),
{
    let u = top_order(total as nat, max_order as nat);
    let n = (max_order + 1) as nat;
    let l = carved_lists(base as int, total as nat, u, n);
    let p = pow2(u) as int;
    vstd::arithmetic::power2::lemma_pow2_pos(u);
    assert forall|o1: int, k1: int, o2: int, k2: int|
        #![trigger l[o1][k1], l[o2][k2]]
        0 <= o1 < l.len() && 0 <= k1 < l[o1].len() && 0 <= o2 < l.len() && 0 <= k2 < l[o2].len() && (o1 != o2 || k1
            != k2) implies l[o1][k1] + pow2(o1 as nat) * PAGE_SIZE <= l[o2][k2] || l[o2][k2] + pow2(o2 as nat) * PAGE_SIZE
        <= l[o1][k1] by {
        let f1 = lemma_carved_entry(base as int, total as nat, u, n, o1, k1);
        let f2 = lemma_carved_entry(base as int, total as nat, u, n, o2, k2);
        let s1 = pow2(o1 as nat) as int;
        let s2 = pow2(o2 as nat) as int;
        let q = total as int / p;
        if o1 == u && o2 == u {
            if k1 < k2 {
                assert(k1 * p + p <= k2 * p) by (nonlinear_arith)
                    requires
                        k1 < k2,
                        p > 0;
            } else {
                assert(k2 * p + p <= k1 * p) by (nonlinear_arith)
                    requires
                        k2 < k1,
                        p > 0;
            }
        } else if o1 == u {
            lemma_small_block(total as nat, u, o2 as nat);
            assert(k1 * p + p <= q * p) by (nonlinear_arith)
                requires
                    k1 + 1 <= q,
                    p > 0;
        } else if o2 == u {
            lemma_small_block(total as nat, u, o1 as nat);
            assert(k2 * p + p <= q * p) by (nonlinear_arith)
                requires
                    k2 + 1 <= q,
                    p > 0;
        } else if o1 < o2 {
            lemma_small_pair(total as nat, u, o1 as nat, o2 as nat);
        } else {
            lemma_small_pair(total as nat, u, o2 as nat, o1 as nat);
        }
        assert(f1 + s1 <= f2 || f2 + s2 <= f1);
        if f1 + s1 <= f2 {
            assert(f1 * PAGE_SIZE + s1 * PAGE_SIZE <= f2 * PAGE_SIZE) by (nonlinear_arith)
                requires
                    f1 + s1 <= f2;
        } else {
            assert(f2 * PAGE_SIZE + s2 * PAGE_SIZE <= f1 * PAGE_SIZE) by (nonlinear_arith)
                requires
                    f2 + s2 <= f1;
        }
    }
    assert forall|o: int, k: int|
        #![trigger l[o][k]]
        0 <= o < l.len() && 0 <= k < l[o].len() implies (l[o][k] - base) % (pow2(o as nat) * PAGE_SIZE) as int == 0 by {
        let f = lemma_carved_entry(base as int, total as nat, u, n, o, k);
        let sz = pow2(o as nat) as int;
        vstd::arithmetic::power2::lemma_pow2_pos(o as nat);
        vstd::arithmetic::div_mod::lemma_fundamental_div_mod(f, sz);
        let t = f / sz;
        assert(f * PAGE_SIZE == t * (sz * PAGE_SIZE)) by (nonlinear_arith)
            requires
                f == sz * t;
        vstd::arithmetic::div_mod::lemma_mod_multiples_basic(t, sz * PAGE_SIZE);
    }
}

/// The block of `2^order` pages at `a` meets no listed block.
pub open spec fn block_clear(lists: Seq<Seq<usize>>, a: int, order: nat) -> bool {
    forall|o: int, k: int|
        #![trigger lists[o][k]]
        0 <= o < lists.len() && 0 <= k < lists[o].len() ==> lists[o][k] + pow2(o as nat) * PAGE_SIZE <= a || a + pow2(
            order,
        ) * PAGE_SIZE <= lists[o][k]
}

/// Taking a block and splitting it keeps the listed blocks apart, and the
/// block handed out meets none of those left: every half put on a list
/// lies inside the block taken, above the part handed out.
proof fn lemma_split_apart(lists: Seq<Seq<usize>>, order: int, o: int, addr: usize)
    requires
        0 <= order,
        first_nonempty(lists, order, o),
        addr == lists[o].last(),
        addr + pow2(o as nat) * PAGE_SIZE <= usize::MAX,
        blocks_apart(lists),
    ensures
        blocks_apart(split_lists(lists, order, o, addr)),
        block_clear(split_lists(lists, order, o, addr), addr as int, order as nat),
{
    let l2 = split_lists(lists, order, o, addr);
    let last = lists[o].len() - 1;
    let big = pow2(o as nat) * PAGE_SIZE;
    // Each half placed at order `c` lies in `[addr + 2^c pages, addr + 2^(c+1) pages)`.
    assert forall|c: int| order <= c < o implies #[trigger] l2[c][lists[c].len() as int] == addr + pow2(c as nat)
        * PAGE_SIZE && addr + pow2(c as nat) * PAGE_SIZE + pow2(c as nat) * PAGE_SIZE <= addr + big && addr
        + pow2(order as nat) * PAGE_SIZE <= addr + pow2(c as nat) * PAGE_SIZE by {
        vstd::arithmetic::power2::lemma_pow2_unfold((c + 1) as nat);
        lemma_pow2_mono((c + 1) as nat, o as nat);
        lemma_pow2_mono(order as nat, c as nat);
        assert(pow2(c as nat) * PAGE_SIZE + pow2(c as nat) * PAGE_SIZE <= big) by (nonlinear_arith)
            requires
                2 * pow2(c as nat) <= pow2(o as nat),
                big == pow2(o as nat) * PAGE_SIZE;
        assert(pow2(order as nat) * PAGE_SIZE <= pow2(c as nat) * PAGE_SIZE) by (nonlinear_arith)
            requires
                pow2(order as nat) <= pow2(c as nat);
    }
    assert forall|o1: int, k1: int, o2: int, k2: int|
        #![trigger l2[o1][k1], l2[o2][k2]]
        0 <= o1 < l2.len() && 0 <= k1 < l2[o1].len() && 0 <= o2 < l2.len() && 0 <= k2 < l2[o2].len() && (o1 != o2 || k1
            != k2) implies l2[o1][k1] + pow2(o1 as nat) * PAGE_SIZE <= l2[o2][k2] || l2[o2][k2] + pow2(o2 as nat)
        * PAGE_SIZE <= l2[o1][k1] by {
        let new1 = order <= o1 < o && k1 == lists[o1].len();
        let new2 = order <= o2 < o && k2 == lists[o2].len();
        if !new1 && !new2 {
            assert(l2[o1][k1] == lists[o1][k1] && l2[o2][k2] == lists[o2][k2]);
        } else if new1 && new2 {
            assert(o1 != o2);
            if o1 < o2 {
                vstd::arithmetic::power2::lemma_pow2_unfold((o1 + 1) as nat);
                lemma_pow2_mono((o1 + 1) as nat, o2 as nat);
                assert(pow2(o1 as nat) * PAGE_SIZE + pow2(o1 as nat) * PAGE_SIZE <= pow2(o2 as nat) * PAGE_SIZE)
                    by (nonlinear_arith)
                    requires
                        2 * pow2(o1 as nat) <= pow2(o2 as nat);
            } else {
                vstd::arithmetic::power2::lemma_pow2_unfold((o2 + 1) as nat);
                lemma_pow2_mono((o2 + 1) as nat, o1 as nat);
                assert(pow2(o2 as nat) * PAGE_SIZE + pow2(o2 as nat) * PAGE_SIZE <= pow2(o1 as nat) * PAGE_SIZE)
                    by (nonlinear_arith)
                    requires
                        2 * pow2(o2 as nat) <= pow2(o1 as nat);
            }
        } else if new1 {
            assert(l2[o2][k2] == lists[o2][k2]);
            assert(o2 != o || k2 != last);
            assert(lists[o][last] == addr);
            assert(lists[o2][k2] + pow2(o2 as nat) * PAGE_SIZE <= lists[o][last] || lists[o][last] + big
                <= lists[o2][k2]);
        } else {
            assert(l2[o1][k1] == lists[o1][k1]);
            assert(o1 != o || k1 != last);
            assert(lists[o][last] == addr);
            assert(lists[o1][k1] + pow2(o1 as nat) * PAGE_SIZE <= lists[o][last] || lists[o][last] + big
                <= lists[o1][k1]);
        }
    }
    assert forall|c: int, k: int|
        #![trigger l2[c][k]]
        0 <= c < l2.len() && 0 <= k < l2[c].len() implies l2[c][k] + pow2(c as nat) * PAGE_SIZE <= addr || addr + pow2(
        order as nat,
    ) * PAGE_SIZE <= l2[c][k] by {
        lemma_pow2_mono(order as nat, o as nat);
        assert(pow2(order as nat) * PAGE_SIZE <= big) by (nonlinear_arith)
            requires
                pow2(order as nat) <= pow2(o as nat),
                big == pow2(o as nat) * PAGE_SIZE;
        if order <= c < o && k == lists[c].len() {
        } else {
            assert(l2[c][k] == lists[c][k]);
            assert(c != o || k != last);
            assert(lists[o][last] == addr);
            assert(lists[c][k] + pow2(c as nat) * PAGE_SIZE <= lists[o][last] || lists[o][last] + big <= lists[c][k]);
        }
    }
}

/// A word's highest set bit, read as powers of two.
proof fn lemma_log2_of(v: nat, r: nat)
    requires
        pow2(r) <= v < pow2(r + 1),
    ensures
        log2_of(v) == r,
    decreases r,
{
    vstd::arithmetic::power2::lemma_pow2_unfold(r + 1);
    if r == 0 {
        vstd::arithmetic::power2::lemma2_to64();
    } else {
        vstd::arithmetic::power2::lemma_pow2_unfold(r);
        vstd::arithmetic::power2::lemma_pow2_pos((r - 1) as nat);
        assert(v as int == 2 * (v as int / 2) + v as int % 2);
        lemma_log2_of(v / 2, (r - 1) as nat);
    }
}

/// A remainder modulo `2m` is the remainder modulo `m` plus `m` exactly
/// when the bit of weight `m` is set.
proof fn lemma_mod_double(x: int, m: int)
    requires
        x >= 0,
        m > 0,
    ensures
        x % (2 * m) == m * ((x / m) % 2) + x % m,
        x - x % (2 * m) == x / (2 * m) * (2 * m),
{
    vstd::arithmetic::div_mod::lemma_mod_breakdown(x, m, 2);
    assert(m * 2 == 2 * m);
    vstd::arithmetic::div_mod::lemma_fundamental_div_mod(x, 2 * m);
}

impl BuddyAllocator {
    /// Cuts `total_pages` pages from `base` into free blocks: as many blocks
    /// of the largest order that fits (`min(log2(total_pages), max_order)`)
    /// as there is room for, then one block of each smaller order for what
    /// is left.
    pub fn new(base: usize, total_pages: usize, max_order: usize) -> (r: Self)
        requires
            max_order < usize::MAX,
            base + total_pages * PAGE_SIZE <= usize::MAX,
        ensures
            r.max_order == max_order,
            r.base_addr == base,
            r.total_pages == total_pages,
            r.allocated == 0,
            r.free_lists@.len() == max_order + 1,
            max_order < usize::BITS ==> r.wf(),
            total_free(r.lists()) == total_pages,
            r.balanced(),
            blocks_within(r.lists(), base as int, base + total_pages * PAGE_SIZE),
            r.lists() == carved_lists(base as int, total_pages as nat, top_order(total_pages as nat, max_order as nat), (max_order + 1) as nat),
            blocks_apart(r.lists()),
            blocks_aligned(r.lists(), base as int),
    {
        let mut free_lists: Vec<Vec<usize>> = Vec::new();
        let mut i: usize = 0;
        while i <= max_order
            invariant
                i <= max_order + 1,
                max_order < usize::MAX,
                free_lists@.len() == i,
                forall|k: int| 0 <= k < i ==> (#[trigger] free_lists@[k])@.len() == 0,
            decreases max_order + 1 - i,
        {
            free_lists.push(Vec::new());
            i += 1;
        }
        let order = crate::bits::log2_floor(total_pages);
        let usable_order = if order < max_order { order } else { max_order };
        proof {
            if total_pages > 0 {
                vstd::bits::lemma_u64_shr_is_div(total_pages as u64, order as u64);
                vstd::arithmetic::power2::lemma_pow2_pos(order as nat);
                vstd::arithmetic::div_mod::lemma_fundamental_div_mod(total_pages as int, pow2(order as nat) as int);
                vstd::arithmetic::power2::lemma_pow2_unfold((order + 1) as nat);
                lemma_log2_of(total_pages as nat, order as nat);
            }
            assert(usable_order == top_order(total_pages as nat, max_order as nat));
        }
        let ghost lists0 = Seq::new(free_lists@.len(), |o: int| free_lists@[o]@);
        proof {
            assert(total_free(lists0) == 0) by {
                lemma_pages_zero(lists0, lists0.len() as int);
            }
        }
        let ghost u = usable_order as nat;
        let ghost want = carved_lists(base as int, total_pages as nat, u, (max_order + 1) as nat);
        let mut me = BuddyAllocator {
            free_lists,
            max_order,
            base_addr: base,
            total_pages,
            allocated: 0,
        };
        let mut addr = base;
        let mut remaining = total_pages;
        let block_pages = pow2_word(usable_order);
        proof {
            vstd::arithmetic::power2::lemma_pow2_pos(usable_order as nat);
            assert(me.lists()[usable_order as int] =~= Seq::new(0, |j: int| (base + j * block_pages * PAGE_SIZE) as usize));
        }
        let ghost mut k: int = 0;
        while remaining >= block_pages
            invariant
                me.max_order == max_order,
                me.base_addr == base,
                me.total_pages == total_pages,
                me.allocated == 0,
                me.free_lists@.len() == max_order + 1,
                usable_order < usize::BITS,
                usable_order <= max_order,
                block_pages == pow2(usable_order as nat),
                block_pages > 0,
                remaining <= total_pages,
                base + total_pages * PAGE_SIZE <= usize::MAX,
                addr == base + (total_pages - remaining) * PAGE_SIZE,
                total_free(me.lists()) + remaining == total_pages,
                blocks_within(me.lists(), base as int, addr as int),
                k >= 0,
                total_pages - remaining == k * block_pages,
                me.lists()[usable_order as int] == Seq::new(k as nat, |j: int| (base + j * block_pages * PAGE_SIZE) as usize),
                forall|c: int| 0 <= c < me.lists().len() && c != usable_order ==> (#[trigger] me.lists()[c]).len() == 0,
            decreases remaining,
        {
            proof {
                lemma_block_step(base as int, total_pages as int, remaining as int, block_pages as int);
            }
            let ghost before = me.lists();
            me.free_lists[usable_order].push(addr);
            proof {
                assert(me.lists() =~= before.update(usable_order as int, before[usable_order as int].push(addr)));
                lemma_pages_update(before, usable_order as int, before[usable_order as int].push(addr), before.len() as int);
                assert((before[usable_order as int].push(addr).len() - before[usable_order as int].len()) * pow2(usable_order as nat)
                    == pow2(usable_order as nat)) by (nonlinear_arith)
                    requires before[usable_order as int].push(addr).len() == before[usable_order as int].len() + 1;
                assert(addr == base + k * block_pages * PAGE_SIZE) by (nonlinear_arith)
                    requires
                        addr == base + (total_pages - remaining) * PAGE_SIZE,
                        total_pages - remaining == k * block_pages;
                assert(me.lists()[usable_order as int] =~= Seq::new((k + 1) as nat, |j: int| (base + j * block_pages * PAGE_SIZE) as usize));
                assert(total_pages - (remaining - block_pages) == (k + 1) * block_pages) by (nonlinear_arith)
                    requires total_pages - remaining == k * block_pages;
                k = k + 1;
            }
            addr += block_pages * PAGE_SIZE;
            remaining -= block_pages;
            proof {
                lemma_within_grow(before, me.lists(), usable_order as int, base as int, (addr - block_pages * PAGE_SIZE) as int, addr as int);
            }
        }
        let ghost p = block_pages as int;
        let ghost q = total_pages as int / p;
        let ghost rest = total_pages as int % p;
        proof {
            vstd::arithmetic::div_mod::lemma_fundamental_div_mod_converse(total_pages as int, p, k, remaining as int);
            assert(q == k && rest == remaining);
            vstd::arithmetic::div_mod::lemma_small_mod(rest as nat, p as nat);
            assert forall|c: int| 0 <= c < me.lists().len() && c >= usable_order implies #[trigger] me.lists()[c] == want[c] by {
                if c == usable_order {
                    assert(me.lists()[c] =~= want[c]);
                } else {
                    assert(me.lists()[c] =~= want[c]);
                }
            }
        }
        let mut o = usable_order;
        while o > 0
            invariant
                me.max_order == max_order,
                me.base_addr == base,
                me.total_pages == total_pages,
                me.allocated == 0,
                me.free_lists@.len() == max_order + 1,
                o <= usable_order <= max_order,
                usable_order < usize::BITS,
                u == usable_order,
                p == pow2(u) as int,
                p > 0,
                q == total_pages as int / p,
                rest == total_pages as int % p,
                q * p + rest == total_pages,
                0 <= rest < p,
                want == carved_lists(base as int, total_pages as nat, u, (max_order + 1) as nat),
                remaining < pow2(o as nat),
                remaining == rest % pow2(o as nat) as int,
                remaining <= total_pages,
                base + total_pages * PAGE_SIZE <= usize::MAX,
                addr == base + (total_pages - remaining) * PAGE_SIZE,
                total_free(me.lists()) + remaining == total_pages,
                blocks_within(me.lists(), base as int, addr as int),
                forall|c: int| 0 <= c < me.lists().len() && c >= o ==> #[trigger] me.lists()[c] == want[c],
                forall|c: int| 0 <= c < o ==> (#[trigger] me.lists()[c]).len() == 0,
            decreases o,
        {
            o -= 1;
            let pages = pow2_word(o);
            proof {
                vstd::arithmetic::power2::lemma_pow2_pos(o as nat);
                vstd::arithmetic::power2::lemma_pow2_unfold((o + 1) as nat);
                lemma_mod_double(rest, pages as int);
                vstd::arithmetic::div_mod::lemma_mod_bound(rest / pages as int, 2);
                vstd::arithmetic::div_mod::lemma_mod_bound(rest, pages as int);
                assert(pow2((o + 1) as nat) as int == 2 * pages);
                let b = (rest / pages as int) % 2;
                assert(remaining == pages * b + rest % pages as int);
                if b == 0 {
                    assert(pages * b == 0) by (nonlinear_arith)
                        requires
                            b == 0;
                } else {
                    assert(pages * b == pages) by (nonlinear_arith)
                        requires
                            b == 1;
                }
            }
            if remaining >= pages {
                proof {
                    lemma_block_step(base as int, total_pages as int, remaining as int, pages as int);
                }
                let ghost before = me.lists();
                me.free_lists[o].push(addr);
                proof {
                    assert(me.lists() =~= before.update(o as int, before[o as int].push(addr)));
                    lemma_pages_update(before, o as int, before[o as int].push(addr), before.len() as int);
                    assert((before[o as int].push(addr).len() - before[o as int].len()) * pow2(o as nat)
                        == pow2(o as nat)) by (nonlinear_arith)
                        requires before[o as int].push(addr).len() == before[o as int].len() + 1;
                    assert((rest / pages as int) % 2 == 1);
                    assert(me.lists()[o as int] =~= want[o as int]);
                }
                addr += pages * PAGE_SIZE;
                remaining -= pages;
                proof {
                    lemma_within_grow(before, me.lists(), o as int, base as int, (addr - pages * PAGE_SIZE) as int, addr as int);
                }
            } else {
                proof {
                    assert((rest / pages as int) % 2 == 0);
                    assert(me.lists()[o as int] =~= want[o as int]);
                }
            }
            proof {
                vstd::arithmetic::power2::lemma_pow2_unfold((o + 1) as nat);
            }
        }
        proof {
            vstd::arithmetic::power2::lemma2_to64();
            assert(remaining == 0);
            assert(me.lists() =~= want);
            law_new_blocks_apart(base, total_pages, max_order);
            if max_order < usize::BITS {
                assert forall|oo: int, kk: int|
                    0 <= oo < me.lists().len() && 0 <= kk < me.lists()[oo].len() implies #[trigger] me.lists()[oo][kk]
                        + pow2(oo as nat) * PAGE_SIZE <= usize::MAX by {
                }
            }
        }
        me
    }
}

proof fn lemma_pages_zero(l: Seq<Seq<usize>>, n: int)
    requires
        0 <= n <= l.len(),
        forall|k: int| 0 <= k < l.len() ==> (#[trigger] l[k]).len() == 0,
    ensures
        pages_below(l, n) == 0,
    decreases n,
{
    if n > 0 {
        lemma_pages_zero(l, n - 1);
    }
}

/// Placing a block of `b` pages at the current address keeps every address
/// inside the range.
proof fn lemma_block_step(base: int, total: int, remaining: int, b: int)
    requires
        0 < b <= remaining <= total,
        base + total * PAGE_SIZE <= usize::MAX,
    ensures
        base + (total - remaining) * PAGE_SIZE + b * PAGE_SIZE == base + (total - (remaining - b)) * PAGE_SIZE,
        base + (total - remaining) * PAGE_SIZE + b * PAGE_SIZE <= base + total * PAGE_SIZE,
        b * PAGE_SIZE <= total * PAGE_SIZE,
{
    assert(b * PAGE_SIZE <= total * PAGE_SIZE) by (nonlinear_arith) requires b <= total;
    assert(base + (total - remaining) * PAGE_SIZE + b * PAGE_SIZE == base + (total - (remaining - b)) * PAGE_SIZE)
        by (nonlinear_arith);
    assert((total - (remaining - b)) * PAGE_SIZE <= total * PAGE_SIZE) by (nonlinear_arith)
        requires remaining - b >= 0;
}

proof fn lemma_within_grow(before: Seq<Seq<usize>>, after: Seq<Seq<usize>>, o: int, lo: int, a: int, hi: int)
    requires
        0 <= o < before.len(),
        0 <= lo <= a,
        a + pow2(o as nat) * PAGE_SIZE == hi,
        a <= usize::MAX,
        blocks_within(before, lo, a),
        after == before.update(o, before[o].push(a as usize)),
    ensures
        blocks_within(after, lo, hi),
{
    vstd::arithmetic::power2::lemma_pow2_pos(o as nat);
    assert forall|c: int, k: int|
        0 <= c < after.len() && 0 <= k < after[c].len() implies lo <= #[trigger] after[c][k] && after[c][k] + pow2(
            c as nat,
        ) * PAGE_SIZE <= hi by {
        if c == o && k == before[o].len() {
        } else {
            assert(after[c][k] == before[c][k]);
        }
    }
}

impl BuddyAllocator {
    /// The number of free pages.
    pub fn free_pages_count(&self) -> (r: usize)
        requires
            self.wf(),
            total_free(self.lists()) <= usize::MAX,
        ensures
            r == total_free(self.lists()),
    {
        let mut count: usize = 0;
        let mut order: usize = 0;
        while order < self.free_lists.len()
            invariant
                self.wf(),
                total_free(self.lists()) <= usize::MAX,
                order <= self.free_lists@.len(),
                count == pages_below(self.lists(), order as int),
            decreases self.free_lists.len() - order,
        {
            proof {
                lemma_pages_mono(self.lists(), order as int + 1, self.lists().len() as int);
            }
            let p = pow2_word(order);
            count += self.free_lists[order].len() * p;
            order += 1;
        }
        count
    }

    /// The highest order with a free block, or 0 when none has one.
    pub fn largest_free_order(&self) -> (r: usize)
        requires
            self.free_lists@.len() == self.max_order + 1,
        ensures
            r == largest_order(self.lists(), self.lists().len() as int),
    {
        let mut o = self.free_lists.len();
        while o > 0
            invariant
                o <= self.max_order + 1,
                self.free_lists@.len() == self.max_order + 1,
                largest_order(self.lists(), self.lists().len() as int) == largest_order(self.lists(), o as int),
            decreases o,
        {
            if self.free_lists[o - 1].len() > 0 {
                return o - 1;
            }
            o -= 1;
        }
        0
    }

    /// How much of the free memory lies outside the largest free block, in
    /// percent of the free memory.
    pub fn fragmentation_score(&self) -> (r: usize)
        requires
            self.wf(),
            total_free(self.lists()) <= usize::MAX,
            total_free(self.lists()) > pow2(largest_order(self.lists(), self.lists().len() as int) as nat)
                ==> (total_free(self.lists()) - pow2(largest_order(self.lists(), self.lists().len() as int) as nat)) * 100
                <= usize::MAX,
        ensures
            ({
                let t = total_free(self.lists());
                let b = pow2(largest_order(self.lists(), self.lists().len() as int) as nat);
                r == if t == 0 || t <= b { 0 } else { ((t - b) * 100) / (t as int) }
            }),
    {
        let total_free = self.free_pages_count();
        if total_free == 0 {
            return 0;
        }
        let largest = self.largest_free_order();
        proof {
            lemma_largest_bound(self.lists(), self.lists().len() as int);
        }
        let largest_block = pow2_word(largest);
        if total_free <= largest_block {
            return 0;
        }
        ((total_free - largest_block) * 100) / total_free
    }

    /// A copy of the allocator's state.
    pub fn snapshot(&self) -> (r: BuddyAllocator)
        ensures
            r.lists() == self.lists(),
            r.max_order == self.max_order,
            r.base_addr == self.base_addr,
            r.total_pages == self.total_pages,
            r.allocated == self.allocated,
    {
        let mut lists: Vec<Vec<usize>> = Vec::new();
        let mut o: usize = 0;
        while o < self.free_lists.len()
            invariant
                o <= self.free_lists@.len(),
                lists@.len() == o,
                forall|k: int| 0 <= k < o ==> (#[trigger] lists@[k])@ == self.free_lists@[k]@,
            decreases self.free_lists.len() - o,
        {
            let src = &self.free_lists[o];
            let mut copy: Vec<usize> = Vec::new();
            let mut k: usize = 0;
            while k < src.len()
                invariant
                    k <= src.len(),
                    copy@ == src@.subrange(0, k as int),
                decreases src.len() - k,
            {
                copy.push(src[k]);
                k += 1;
                assert(copy@ =~= src@.subrange(0, k as int));
            }
            assert(copy@ =~= src@);
            lists.push(copy);
            o += 1;
        }
        let r = BuddyAllocator {
            free_lists: lists,
            max_order: self.max_order,
            base_addr: self.base_addr,
            total_pages: self.total_pages,
            allocated: self.allocated,
        };
        assert(r.lists() =~= self.lists());
        r
    }
}

proof fn lemma_pages_mono(l: Seq<Seq<usize>>, a: int, b: int)
    requires
        0 <= a <= b <= l.len(),
    ensures
        pages_below(l, a) <= pages_below(l, b),
    decreases b - a,
{
    if a < b {
        lemma_pages_mono(l, a, b - 1);
    }
}

proof fn lemma_largest_bound(l: Seq<Seq<usize>>, n: int)
    requires
        0 <= n <= l.len(),
    ensures
        0 <= largest_order(l, n),
        n > 0 ==> largest_order(l, n) < n,
    decreases n,
{
    if n > 0 {
        lemma_largest_bound(l, n - 1);
    }
}

use vstd::arithmetic::power2::lemma_pow2_adds;

} // verus!
