//! Physical memory and the buddy page allocator with reference counting.
//!
//! Physical memory is held as an explicit array of 32-bit words, one
//! [`crate::layout::PAGE_WORDS`]-word row per physical page; page tables and
//! user data live inside it. The allocator keeps one free list per
//! power-of-two block order and a reference count per page. Its invariant
//! [`PageAllocator::wf`] states that free blocks are aligned, lie inside
//! memory, are pairwise disjoint, and cover only pages whose reference count
//! is zero.

use vstd::prelude::*;
use vstd::arithmetic::power2::{pow2, lemma_pow2_unfold, lemma_pow2_pos, lemma_pow2_strictly_increases, lemma2_to64};
use crate::addr::{PA, PPN, VA};
use crate::layout::{PAGE_SIZE, PAGE_WORDS, KSEG0};

verus! {

/// Number of buddy orders: blocks range from 1 page to `2^(ORDER-1)` pages.
pub const ORDER: usize = 32;

/// Physical memory, one row of `PAGE_WORDS` 32-bit words per page.
pub struct PhysMem {
    /// The memory words; index `p * PAGE_WORDS + k` is word `k` of page `p`.
    pub words: Vec<usize>,
    /// Number of physical pages.
    pub page_count: usize,
}

impl PhysMem {
    /// Well-formed: one full row per page, every word a 32-bit value.
    pub open spec fn wf(self) -> bool {
        &&& self.words@.len() == self.page_count * PAGE_WORDS
        &&& self.page_count <= 0x10_0000
        &&& forall|k: int| 0 <= k < self.words@.len() ==> #[trigger] self.words@[k] < 0x1_0000_0000
    }

    /// Word `k` of page `p`.
    pub open spec fn word(self, p: int, k: int) -> usize {
        self.words@[p * PAGE_WORDS + k]
    }

    /// Fresh memory of `page_count` pages, all words zero.
    pub fn new(page_count: usize) -> (r: Self)
        requires
            page_count <= 0x10_0000,
        ensures
            r.wf(),
            r.page_count == page_count,
            forall|p: int, k: int| 0 <= p < page_count && 0 <= k < PAGE_WORDS ==> #[trigger] r.word(p, k) == 0,
    {
        let words = vec![0usize; page_count * PAGE_WORDS];
        let r = PhysMem { words, page_count };
        proof {
            assert forall|p: int, k: int| 0 <= p < page_count && 0 <= k < PAGE_WORDS
                implies #[trigger] r.word(p, k) == 0 by {
                lemma_row_index(page_count as int, p, k);
            }
        }
        r
    }

    /// Reads word `idx` of page `ppn`.
    pub fn read_word(&self, ppn: PPN, idx: usize) -> (r: usize)
        requires
            self.wf(),
            ppn.0 < self.page_count,
            idx < PAGE_WORDS,
        ensures
            r == self.word(ppn.0 as int, idx as int),
            r < 0x1_0000_0000,
    {
        proof {
            lemma_row_index(self.page_count as int, ppn.0 as int, idx as int);
        }
        self.words[ppn.0 * PAGE_WORDS + idx]
    }

    /// Writes word `idx` of page `ppn`.
    pub fn write_word(&mut self, ppn: PPN, idx: usize, val: usize)
        requires
            old(self).wf(),
            ppn.0 < old(self).page_count,
            idx < PAGE_WORDS,
            val < 0x1_0000_0000,
        ensures
            final(self).wf(),
            final(self).page_count == old(self).page_count,
            final(self).words@ == old(self).words@.update(ppn.0 * PAGE_WORDS + idx, val),
            final(self).word(ppn.0 as int, idx as int) == val,
            forall|p: int, k: int|
                0 <= p < final(self).page_count && 0 <= k < PAGE_WORDS && !(p == ppn.0 && k == idx)
                    ==> #[trigger] final(self).word(p, k) == old(self).word(p, k),
    {
        proof {
            lemma_row_index(self.page_count as int, ppn.0 as int, idx as int);
        }
        let i = ppn.0 * PAGE_WORDS + idx;
        self.words[i] = val;
        proof {
            assert forall|p: int, k: int|
                0 <= p < self.page_count && 0 <= k < PAGE_WORDS && !(p == ppn.0 && k == idx)
                    implies #[trigger] self.word(p, k) == old(self).word(p, k) by {
                lemma_row_index(self.page_count as int, p, k);
                lemma_row_distinct(p, k, ppn.0 as int, idx as int);
            }
        }
    }

    /// Zeroes every word of page `ppn`.
    pub fn clear_page(&mut self, ppn: PPN)
        requires
            old(self).wf(),
            ppn.0 < old(self).page_count,
        ensures
            final(self).wf(),
            final(self).page_count == old(self).page_count,
            forall|k: int| 0 <= k < PAGE_WORDS ==> #[trigger] final(self).word(ppn.0 as int, k) == 0,
            forall|p: int, k: int|
                0 <= p < final(self).page_count && 0 <= k < PAGE_WORDS && p != ppn.0
                    ==> #[trigger] final(self).word(p, k) == old(self).word(p, k),
    {
        let mut idx: usize = 0;
        while idx < PAGE_WORDS
            invariant
                self.wf(),
                self.page_count == old(self).page_count,
                ppn.0 < self.page_count,
                idx <= PAGE_WORDS,
                forall|k: int| 0 <= k < idx ==> #[trigger] self.word(ppn.0 as int, k) == 0,
                forall|p: int, k: int|
                    0 <= p < self.page_count && 0 <= k < PAGE_WORDS && p != ppn.0
                        ==> #[trigger] self.word(p, k) == old(self).word(p, k),
            decreases PAGE_WORDS - idx,
        {
            self.write_word(ppn, idx, 0);
            idx = idx + 1;
        }
    }
}

/// Word-index arithmetic: the word `(p, k)` lies inside a memory of `n` full rows.
proof fn lemma_row_index(n: int, p: int, k: int)
    requires
        0 <= p < n,
        0 <= k < PAGE_WORDS,
    ensures
        0 <= p * PAGE_WORDS + k < n * PAGE_WORDS,
        p * PAGE_WORDS + k == p * PAGE_WORDS + k,
{
    assert(p * PAGE_WORDS + k < n * PAGE_WORDS) by (nonlinear_arith)
        requires 0 <= p < n, 0 <= k < PAGE_WORDS,
    {}
    assert(0 <= p * PAGE_WORDS) by (nonlinear_arith)
        requires 0 <= p,
    {}
}

/// Distinct `(page, offset)` pairs address distinct words.
proof fn lemma_row_distinct(p1: int, k1: int, p2: int, k2: int)
    requires
        0 <= k1 < PAGE_WORDS,
        0 <= k2 < PAGE_WORDS,
        0 <= p1,
        0 <= p2,
        !(p1 == p2 && k1 == k2),
    ensures
        p1 * PAGE_WORDS + k1 != p2 * PAGE_WORDS + k2,
{
    assert(p1 * PAGE_WORDS + k1 != p2 * PAGE_WORDS + k2) by (nonlinear_arith)
        requires
            0 <= k1 < PAGE_WORDS,
            0 <= k2 < PAGE_WORDS,
            0 <= p1,
            0 <= p2,
            !(p1 == p2 && k1 == k2),
    {}
}

/// A handle on one physical page, identified by its page number. The page's
/// contents and reference count live in [`PhysMem`] and [`PageTracker`].
#[derive(Clone, Copy, Debug, PartialEq, Eq, Structural)]
pub struct Page {
    /// The page's physical page number.
    pub ppn: PPN,
}

impl Page {
    /// Wraps a page number.
    pub fn new(ppn: PPN) -> (r: Self)
        ensures r.ppn == ppn,
    {
        Page { ppn }
    }

    /// The page's physical page number.
    pub fn ppn(self) -> (r: PPN)
        ensures r == self.ppn,
    {
        self.ppn
    }

    /// The kernel virtual address of the page's base.
    pub fn kaddr(self) -> (r: VA)
        requires
            self.ppn.0 * PAGE_SIZE < KSEG0,
        ensures
            r.0 == self.ppn.0 * PAGE_SIZE + KSEG0,
    {
        self.ppn.kaddr()
    }
}

impl From<PPN> for Page {
    /// Wraps a page number.
    fn from(ppn: PPN) -> (r: Self) {
        Page { ppn }
    }
}

impl vstd::std_specs::convert::FromSpecImpl<PPN> for Page {
    open spec fn obeys_from_spec() -> bool {
        true
    }

    open spec fn from_spec(ppn: PPN) -> Self {
        Page { ppn }
    }
}

/// One page's reference-count record.
#[derive(Clone, Copy, Debug, PartialEq, Eq, Structural)]
pub struct PageRc {
    /// How many mappings and owners currently reference the page.
    pub ref_count: u16,
}

impl PageRc {
    /// A record with no reference.
    pub fn new() -> (r: Self)
        ensures r.ref_count == 0,
    {
        PageRc { ref_count: 0 }
    }

    /// The recorded reference count.
    pub fn ref_count(&self) -> (r: u16)
        ensures r == self.ref_count,
    {
        self.ref_count
    }

    /// Increments the count.
    fn inc_ref(&mut self)
        requires old(self).ref_count < 0xffff,
        ensures final(self).ref_count == old(self).ref_count + 1,
    {
        self.ref_count = self.ref_count + 1;
    }

    /// Decrements the count, stopping at zero rather than underflowing.
    fn dec_ref(&mut self)
        ensures
            final(self).ref_count == if old(self).ref_count > 0 { old(self).ref_count - 1 } else { 0 },
    {
        if self.ref_count > 0 {
            self.ref_count = self.ref_count - 1;
        }
    }
}

/// The side table of per-page reference counts.
///
/// On the real machine the records live in physical pages that the allocator
/// reserves for them at boot; `ppn` and `page_count` record where and how
/// many. The records themselves are held here as an explicit vector indexed
/// by page number.
pub struct PageTracker {
    /// First page of the region reserved for the record array.
    pub ppn: PPN,
    /// Number of tracked pages (the number of physical pages).
    pub size: usize,
    /// Number of pages the record array occupies.
    pub page_count: usize,
    /// The records, one per tracked page.
    pub rc: Vec<PageRc>,
}

impl PageTracker {
    /// An empty tracker, before boot.
    fn new() -> (r: Self)
        ensures
            r.ppn.0 == 0,
            r.size == 0,
            r.page_count == 0,
            r.rc@.len() == 0,
    {
        PageTracker { ppn: PPN(0), size: 0, page_count: 0, rc: Vec::new() }
    }

    /// The reference count of page `p`.
    pub open spec fn rc_at(self, p: int) -> u16 {
        self.rc@[p].ref_count
    }

    /// The reference count of `ppn`, or `None` for a page outside memory.
    pub fn ref_count(&self, ppn: PPN) -> (r: Option<u16>)
        requires
            self.rc@.len() == self.size,
        ensures
            r == if ppn.0 < self.size { Some(self.rc_at(ppn.0 as int)) } else { None::<u16> },
    {
        if ppn.0 < self.size {
            Some(self.rc[ppn.0].ref_count())
        } else {
            None
        }
    }

    /// Increments the reference count of `ppn`.
    pub(crate) fn inc_ref(&mut self, ppn: PPN)
        requires
            old(self).rc@.len() == old(self).size,
            ppn.0 < old(self).size,
            old(self).rc_at(ppn.0 as int) < 0xffff,
        ensures
            final(self).rc@ == old(self).rc@.update(ppn.0 as int, PageRc { ref_count: (old(self).rc_at(ppn.0 as int) + 1) as u16 }),
            final(self).ppn == old(self).ppn,
            final(self).size == old(self).size,
            final(self).page_count == old(self).page_count,
    {
        let c = self.rc[ppn.0].ref_count;
        self.rc[ppn.0] = PageRc { ref_count: c + 1 };
        proof {
            assert(self.rc@ =~= old(self).rc@.update(ppn.0 as int, PageRc { ref_count: (old(self).rc_at(ppn.0 as int) + 1) as u16 }));
        }
    }

    /// Decrements the reference count of `ppn`, stopping at zero.
    pub(crate) fn dec_ref(&mut self, ppn: PPN)
        requires
            old(self).rc@.len() == old(self).size,
            ppn.0 < old(self).size,
        ensures
            final(self).rc@ == old(self).rc@.update(
                ppn.0 as int,
                PageRc {
                    ref_count: if old(self).rc_at(ppn.0 as int) > 0 {
                        (old(self).rc_at(ppn.0 as int) - 1) as u16
                    } else {
                        0u16
                    },
                },
            ),
            final(self).ppn == old(self).ppn,
            final(self).size == old(self).size,
            final(self).page_count == old(self).page_count,
    {
        let c = self.rc[ppn.0].ref_count;
        let nc: u16 = if c > 0 { c - 1 } else { 0 };
        self.rc[ppn.0] = PageRc { ref_count: nc };
        proof {
            assert(self.rc@ =~= old(self).rc@.update(
                ppn.0 as int,
                PageRc {
                    ref_count: if old(self).rc_at(ppn.0 as int) > 0 {
                        (old(self).rc_at(ppn.0 as int) - 1) as u16
                    } else {
                        0u16
                    },
                },
            ));
        }
    }
}

/// The exact power of two `pow2(order)`, computed by doubling.
pub fn block_size(order: usize) -> (r: usize)
    requires
        order <= 31,
    ensures
        r == pow2(order as nat),
        r >= 1,
{
    let mut k: usize = 0;
    let mut r: usize = 1;
    proof {
        vstd::arithmetic::power::lemma_pow0(2);
    }
    while k < order
        invariant
            k <= order <= 31,
            r == pow2(k as nat),
        decreases order - k,
    {
        proof {
            lemma_pow2_unfold((k + 1) as nat);
            lemma_pow2_strictly_increases(k as nat, 32);
            lemma2_to64();
        }
        r = r * 2;
        k = k + 1;
    }
    proof {
        lemma_pow2_pos(order as nat);
    }
    r
}

/// The order of the smallest power-of-two block holding `size` pages:
/// the least `o` with `pow2(o) >= size`.
pub open spec fn order_of(size: int) -> nat
    decreases size,
{
    if size <= 1 {
        0
    } else {
        (1 + order_of((size + 1) / 2)) as nat
    }
}

/// `pow2(order_of(s))` is the smallest power of two that is at least `s`.
pub proof fn lemma_order_of_bounds(s: int)
    requires
        s >= 1,
    ensures
        s <= pow2(order_of(s)),
        pow2(order_of(s)) < 2 * s,
    decreases s,
{
    if s <= 1 {
        assert(pow2(0) == 1) by {
            lemma2_to64();
        }
    } else {
        let c = (s + 1) / 2;
        lemma_order_of_bounds(c);
        lemma_pow2_unfold(order_of(s));
        assert(pow2(order_of(s)) == 2 * pow2(order_of(c)));
        // pow2(order_of(c)) < s: for even s, 2c == s; for odd s, 2c == s + 1
        // and a power of two cannot equal the odd s.
        if s % 2 == 1 && pow2(order_of(c)) == s {
            if order_of(c) == 0 {
                assert(pow2(0) == 1) by {
                    lemma2_to64();
                }
            } else {
                lemma_pow2_unfold(order_of(c));
            }
        }
    }
}

/// Any `o` with `pow2(o) >= s` and `pow2(o - 1) < s` is `order_of(s)`.
pub proof fn lemma_order_of_unique(s: int, o: nat)
    requires
        s >= 1,
        s <= pow2(o),
        o == 0 ==> s == 1,
        o >= 1 ==> pow2((o - 1) as nat) < s,
    ensures
        o == order_of(s),
{
    lemma_order_of_bounds(s);
    if o < order_of(s) {
        lemma_pow2_unfold(order_of(s));
        if o < order_of(s) - 1 {
            lemma_pow2_strictly_increases(o, (order_of(s) - 1) as nat);
        }
        assert(pow2(order_of(s)) <= 2 * pow2(o));
        assert(pow2(order_of(s)) < 2 * s);
    } else if o > order_of(s) {
        if order_of(s) < o - 1 {
            lemma_pow2_strictly_increases(order_of(s), (o - 1) as nat);
        }
        assert(pow2((o - 1) as nat) >= pow2(order_of(s)));
        assert(o >= 1 && pow2((o - 1) as nat) < s);
    }
}

/// The block order for an allocation of `size` pages, with `pow2` of it.
fn size_to_order(size: usize) -> (r: (usize, usize))
    requires
        1 <= size <= 0x8000_0000,
    ensures
        r.0 == order_of(size as int),
        r.0 <= 31,
        r.1 == pow2(r.0 as nat),
        r.1 >= size,
{
    let mut o: usize = 0;
    let mut t: usize = 1;
    proof {
        vstd::arithmetic::power::lemma_pow0(2);
    }
    while t < size
        invariant
            1 <= size <= 0x8000_0000,
            t == pow2(o as nat),
            o == 0 || pow2((o - 1) as nat) < size,
            1 <= t <= 0x8000_0000,
            o <= 31,
        decreases 31 - o,
    {
        proof {
            let target = order_of(size as int);
            lemma_order_of_bounds(size as int);
            // t == pow2(o) < size <= pow2(target), so o < target
            if o as nat >= target {
                if o as nat > target {
                    lemma_pow2_strictly_increases(target, o as nat);
                }
                assert(false);
            }
            // pow2(target) < 2 * size <= pow2(32), so target <= 31
            lemma2_to64();
            if target > 31 {
                if target > 32 {
                    lemma_pow2_strictly_increases(32, target);
                }
                assert(pow2(target) >= 0x1_0000_0000);
                assert(false);
            }
            let onext = (o + 1) as nat;
            lemma_pow2_unfold(onext);
            if onext < 31 {
                lemma_pow2_strictly_increases(onext, 31);
            }
        }
        t = t * 2;
        o = o + 1;
    }
    proof {
        lemma_order_of_unique(size as int, o as nat);
        if o > 31 {
            lemma_pow2_strictly_increases(31, o as nat);
            lemma2_to64();
            lemma_order_of_bounds(size as int);
        }
    }
    (o, t)
}

/// The buddy allocator: one free list of block base pages per order, plus
/// the reference-count tracker.
pub struct PageAllocator {
    /// Per-page reference counts and the tracker array's location.
    pub tracker: PageTracker,
    /// `free_list[i]` holds the base page numbers of the free blocks of
    /// `pow2(i)` pages.
    pub free_list: Vec<Vec<PPN>>,
}

impl PageAllocator {
    /// The number of physical pages under management.
    pub open spec fn npages(self) -> int {
        self.tracker.size as int
    }

    /// Whether `(i, j)` indexes a block: order `i`, position `j` in its list.
    pub open spec fn block_in_range(self, i: int, j: int) -> bool {
        0 <= i < self.free_list@.len() && 0 <= j < self.free_list@[i]@.len()
    }

    /// The base page of block `(i, j)`.
    pub open spec fn block_base(self, i: int, j: int) -> int {
        self.free_list@[i]@[j].0 as int
    }

    /// Whether page `p` lies inside block `(i, j)`.
    pub open spec fn covers(self, i: int, j: int, p: int) -> bool {
        self.block_base(i, j) <= p < self.block_base(i, j) + pow2(i as nat)
    }

    /// Whether page `p` is free: covered by some block on some free list.
    pub open spec fn free_in(self, p: int) -> bool {
        exists|i: int, j: int| self.block_in_range(i, j) && #[trigger] self.covers(i, j, p)
    }

    /// Block `(i, j)` is aligned to its size and lies inside memory.
    pub open spec fn block_ok(self, i: int, j: int) -> bool {
        &&& self.block_base(i, j) % pow2(i as nat) as int == 0
        &&& self.block_base(i, j) + pow2(i as nat) <= self.npages()
    }

    /// No page is covered by two different free blocks.
    pub open spec fn blocks_disjoint(self) -> bool {
        forall|i1: int, j1: int, i2: int, j2: int, p: int|
            self.block_in_range(i1, j1) && self.block_in_range(i2, j2) && !(i1 == i2 && j1 == j2)
                ==> !(#[trigger] self.covers(i1, j1, p) && #[trigger] self.covers(i2, j2, p))
    }

    /// Eager coalescing: except at the top order, no free block's buddy
    /// is itself free at the same order — such pairs are always merged.
    pub open spec fn no_free_buddies(self) -> bool {
        forall|i: int, j1: int, j2: int|
            0 <= i < ORDER - 1 && 0 <= j1 < self.free_list@[i]@.len()
                && 0 <= j2 < self.free_list@[i]@.len()
                ==> (#[trigger] self.free_list@[i]@[j1]).0 as int
                    != buddy_of((#[trigger] self.free_list@[i]@[j2]).0 as int, i as nat)
    }

    /// The allocator's invariant: one list per order; a reference count per
    /// page; every free block aligned, in range and disjoint from the
    /// others; no free page referenced; and buddies coalesced eagerly.
    pub open spec fn wf(self) -> bool {
        &&& self.free_list@.len() == ORDER
        &&& self.tracker.rc@.len() == self.tracker.size
        &&& self.tracker.size <= 0x10_0000
        &&& forall|i: int, j: int| self.block_in_range(i, j) ==> #[trigger] self.block_ok(i, j)
        &&& self.blocks_disjoint()
        &&& forall|i: int, j: int, p: int|
            self.block_in_range(i, j) && #[trigger] self.covers(i, j, p) ==> self.tracker.rc_at(p) == 0
        &&& self.no_free_buddies()
    }

    /// An empty allocator, before boot: no pages, no free blocks.
    pub(crate) fn new() -> (r: Self)
        ensures
            r.wf(),
            r.npages() == 0,
            forall|i: int| 0 <= i < ORDER ==> #[trigger] r.free_list@[i]@.len() == 0,
    {
        let mut free_list: Vec<Vec<PPN>> = Vec::new();
        let mut i: usize = 0;
        while i < ORDER
            invariant
                free_list@.len() == i,
                i <= ORDER,
                forall|k: int| 0 <= k < i ==> #[trigger] free_list@[k]@.len() == 0,
            decreases ORDER - i,
        {
            free_list.push(Vec::new());
            i = i + 1;
        }
        PageAllocator { tracker: PageTracker::new(), free_list }
    }

    /// The tracker array's base page and page count.
    pub fn get_tracker_info(&self) -> (r: (PPN, usize))
        ensures
            r.0 == self.tracker.ppn,
            r.1 == self.tracker.page_count,
    {
        (self.tracker.ppn, self.tracker.page_count)
    }
}

/// What a successful allocation did: the returned block is aligned, lies in
/// memory, was entirely free, and exactly it left the free set; the
/// reference counts are untouched.
pub open spec fn alloc_some_post(pre: PageAllocator, post: PageAllocator, size: int, p: int) -> bool {
    let o = order_of(size);
    &&& p % pow2(o) as int == 0
    &&& p + pow2(o) <= pre.npages()
    &&& (forall|q: int| p <= q < p + pow2(o) ==> pre.free_in(q))
    &&& (forall|q: int| #[trigger] post.free_in(q) <==> (pre.free_in(q) && !(p <= q < p + pow2(o))))
    &&& post.tracker == pre.tracker
}

impl PageAllocator {
    /// Allocates a block of `size` pages, rounded up to the next power of
    /// two. The smallest free block of sufficient order is split down until
    /// a block of the requested order remains, whose base is returned; the
    /// unused halves go back on the lower free lists. Returns `None`, with
    /// nothing changed, exactly when no free block of sufficient order
    /// exists. With `clear`, the returned block is zero-filled.
    pub fn alloc_block(&mut self, mem: &mut PhysMem, clear: bool, size: usize) -> (r: Option<PPN>)
        requires
            old(self).wf(),
            old(mem).wf(),
            old(self).npages() == old(mem).page_count,
            1 <= size <= 0x8000_0000,
        ensures
            final(self).wf(),
            final(mem).wf(),
            final(self).tracker == old(self).tracker,
            final(mem).page_count == old(mem).page_count,
            final(self).free_list@.len() == ORDER,
            match r {
                None => {
                    &&& *final(self) == *old(self)
                    &&& *final(mem) == *old(mem)
                    &&& forall|i: int|
                        order_of(size as int) <= i < ORDER
                            ==> #[trigger] old(self).free_list@[i]@.len() == 0
                },
                Some(p) => {
                    &&& alloc_some_post(*old(self), *final(self), size as int, p.0 as int)
                    &&& (old(self).free_list@[order_of(size as int) as int]@.len() > 0
                        ==> p == old(self).free_list@[order_of(size as int) as int]@.last()
                            && final(self).free_list@[order_of(size as int) as int]@
                                == old(self).free_list@[
                                    order_of(size as int) as int]@.drop_last())
                    &&& (clear ==> forall|pg: int, k: int|
                        p.0 <= pg < p.0 + pow2(order_of(size as int)) && 0 <= k < PAGE_WORDS
                            ==> #[trigger] final(mem).word(pg, k) == 0)
                    &&& (forall|pg: int, k: int|
                        0 <= pg < old(mem).page_count && 0 <= k < PAGE_WORDS
                            && !(p.0 <= pg < p.0 + pow2(order_of(size as int)))
                            ==> #[trigger] final(mem).word(pg, k) == old(mem).word(pg, k))
                    &&& (!clear ==> *final(mem) == *old(mem))
                },
            },
    {
        let (order, _) = size_to_order(size);
        let mut i: usize = order;
        while i < ORDER && self.free_list[i].len() == 0
            invariant
                order <= i <= ORDER,
                self.free_list@.len() == ORDER,
                forall|k: int| order <= k < i ==> #[trigger] self.free_list@[k]@.len() == 0,
                *self == *old(self),
            decreases ORDER - i,
        {
            i = i + 1;
        }
        if i == ORDER {
            return None;
        }
        // Pop the smallest sufficient block.
        let ghost pre0 = *self;
        let popped = self.free_list[i].pop();
        let ppn = popped.unwrap();
        proof {
            let jlast = pre0.free_list@[i as int]@.len() - 1;
            assert(self.free_list@[i as int]@ == pre0.free_list@[i as int]@.drop_last());
            lemma_pop_free(pre0, *self, i as int);
            assert(pre0.block_base(i as int, jlast) == ppn.0 as int);
            assert(pre0.block_ok(i as int, jlast));
            lemma_pow2_pos(i as nat);
            assert forall|q: int| ppn.0 <= q < ppn.0 + pow2(i as nat)
                implies #[trigger] old(self).free_in(q) by {
                assert(pre0.covers(i as int, jlast, q));
            }
            assert forall|q: int| ppn.0 <= q < ppn.0 + pow2(i as nat)
                implies (#[trigger] old(self).tracker.rc_at(q)) == 0 by {
                assert(pre0.covers(i as int, jlast, q));
                assert(pre0.tracker.rc_at(q) == 0);
            }
            assert forall|q: int| #[trigger] self.free_in(q)
                implies (pre0.free_in(q) && !(ppn.0 <= q < ppn.0 + pow2(i as nat))) by {
                assert(!pre0.covers(i as int, jlast, q));
            }
            assert forall|q: int| pre0.free_in(q) && !(ppn.0 <= q < ppn.0 + pow2(i as nat))
                implies #[trigger] self.free_in(q) by {
                assert(!pre0.covers(i as int, jlast, q));
            }
        }
        // Split down to the requested order, returning upper halves.
        let ghost afterpop = *self;
        let mut cur: usize = i;
        let mut csize: usize = block_size(i);
        while cur > order
            invariant
                order <= cur <= i < ORDER,
                csize == pow2(cur as nat),
                cur == i ==> *self == afterpop,
                old(self).wf(),
                self.wf(),
                self.free_list@.len() == ORDER,
                self.tracker == old(self).tracker,
                ppn.0 as int % pow2(cur as nat) as int == 0,
                ppn.0 + pow2(cur as nat) <= old(self).npages(),
                forall|q: int|
                    ppn.0 <= q < ppn.0 + pow2(cur as nat) ==> #[trigger] old(self).free_in(q),
                forall|q: int|
                    ppn.0 <= q < ppn.0 + pow2(cur as nat)
                        ==> (#[trigger] old(self).tracker.rc_at(q)) == 0,
                forall|q: int|
                    #[trigger] self.free_in(q)
                        <==> (old(self).free_in(q) && !(ppn.0 <= q < ppn.0 + pow2(cur as nat))),
            decreases cur,
        {
            proof {
                lemma_pow2_unfold(cur as nat);
            }
            let ghost hole = ppn.0 + pow2(cur as nat);
            cur = cur - 1;
            csize = csize / 2;
            let half = PPN(ppn.0 + csize);
            let ghost prepush = *self;
            self.free_list[cur].push(half);
            proof {
                lemma_pow2_pos(cur as nat);
                lemma_align_split(ppn.0 as int, pow2(cur as nat) as int);
                assert forall|q: int| half.0 <= q < half.0 + pow2(cur as nat)
                    implies !prepush.free_in(q) by {
                    assert(ppn.0 <= q < hole);
                    assert(old(self).free_in(q));
                }
                assert forall|q: int| half.0 <= q < half.0 + pow2(cur as nat)
                    implies prepush.tracker.rc_at(q) == 0 by {
                    assert(ppn.0 <= q < hole);
                    assert(old(self).tracker.rc_at(q) == 0);
                }
                // the pushed half's buddy is the carved lower half,
                // which is not free, so no list holds it
                assert(buddy_of(half.0 as int, cur as nat) == ppn.0) by {
                    let m = pow2(cur as nat) as int;
                    assert(m >= 1);
                    assert(2 * m == pow2((cur + 1) as nat));
                    assert(ppn.0 as int % (2 * m) == 0);
                    vstd::arithmetic::div_mod::lemma_fundamental_div_mod(
                        ppn.0 as int, 2 * m);
                    let t2 = ppn.0 as int / (2 * m);
                    assert(ppn.0 as int == (2 * m) * t2);
                    assert(half.0 as int == (2 * m) * t2 + m);
                    assert(half.0 as int == t2 * (2 * m) + m) by (nonlinear_arith)
                        requires half.0 as int == (2 * m) * t2 + m,
                    {}
                    assert(0 <= m < 2 * m);
                    vstd::arithmetic::div_mod::lemma_fundamental_div_mod_converse(
                        half.0 as int, 2 * m, t2, m);
                    assert(half.0 as int % (2 * m) == m);
                }
                assert forall|j2: int|
                    0 <= j2 < prepush.free_list@[cur as int]@.len()
                        implies (#[trigger] prepush.free_list@[cur as int]@[j2]).0 as int
                            != buddy_of(half.0 as int, cur as nat) by {
                    if prepush.free_list@[cur as int]@[j2].0 == ppn.0 {
                        assert(prepush.covers(cur as int, j2, ppn.0 as int));
                        assert(prepush.free_in(ppn.0 as int));
                    }
                }
                lemma_push_free(prepush, *self, cur as int, half.0 as int);
                assert forall|q: int| ppn.0 <= q < ppn.0 + pow2(cur as nat)
                    implies #[trigger] old(self).free_in(q) by {
                    assert(ppn.0 <= q < hole);
                }
            }
        }
        proof {
            if old(self).free_list@[order as int]@.len() > 0 {
                assert(i == order);
                assert(*self == afterpop);
                assert(self.free_list@[order as int]@
                    == old(self).free_list@[order as int]@.drop_last());
            }
        }
        // Optionally zero the block.
        if clear {
            let mut j: usize = 0;
            while j < csize
                invariant
                    j <= csize,
                    csize == pow2(order as nat),
                    ppn.0 + csize <= mem.page_count,
                    mem.wf(),
                    mem.page_count == old(mem).page_count,
                    forall|pg: int, k: int|
                        ppn.0 <= pg < ppn.0 + j && 0 <= k < PAGE_WORDS
                            ==> #[trigger] mem.word(pg, k) == 0,
                    forall|pg: int, k: int|
                        0 <= pg < mem.page_count && 0 <= k < PAGE_WORDS
                            && !(ppn.0 <= pg < ppn.0 + j)
                            ==> #[trigger] mem.word(pg, k) == old(mem).word(pg, k),
                decreases csize - j,
            {
                mem.clear_page(PPN(ppn.0 + j));
                proof {
                    assert forall|pg: int, k: int|
                        ppn.0 <= pg < ppn.0 + j + 1 && 0 <= k < PAGE_WORDS
                            implies #[trigger] mem.word(pg, k) == 0 by {
                        if pg == ppn.0 + j {
                        } else {
                        }
                    }
                }
                j = j + 1;
            }
        }
        Some(ppn)
    }
}

/// The buddy of the aligned block of `pow2(k)` pages at `p`: the other half
/// of their common parent block.
pub open spec fn buddy_of(p: int, k: nat) -> int {
    if p % pow2((k + 1) as nat) as int == 0 {
        p + pow2(k)
    } else {
        p - pow2(k)
    }
}

/// An aligned block is either the lower or the upper half of its parent:
/// `p % 2m` is `0` or `m`, and in the upper-half case `p - m` is the
/// parent's aligned base.
proof fn lemma_merge_align(p: int, m: int)
    requires
        m >= 1,
        p >= 0,
        p % m == 0,
    ensures
        p % (2 * m) == 0 || (p % (2 * m) == m && p >= m && (p - m) % (2 * m) == 0),
{
    vstd::arithmetic::div_mod::lemma_fundamental_div_mod(p, m);
    let k = p / m;
    assert(p == m * k);
    assert(k >= 0) by {
        if k < 0 {
            assert(m * k <= m * -1) by (nonlinear_arith)
                requires m >= 1, k <= -1,
            {}
        }
    }
    vstd::arithmetic::div_mod::lemma_fundamental_div_mod(k, 2);
    let t = k / 2;
    if k % 2 == 0 {
        assert(k == 2 * t);
        assert(m * (2 * t) == (2 * m) * t + 0) by (nonlinear_arith) {}
        vstd::arithmetic::div_mod::lemma_fundamental_div_mod_converse(p, 2 * m, t, 0);
    } else {
        assert(k == 2 * t + 1);
        assert(t >= 0);
        assert(m * (2 * t + 1) == (2 * m) * t + m) by (nonlinear_arith) {}
        vstd::arithmetic::div_mod::lemma_fundamental_div_mod_converse(p, 2 * m, t, m);
        assert(p - m == (2 * m) * t);
        assert((2 * m) * t == t * (2 * m)) by (nonlinear_arith) {}
        vstd::arithmetic::div_mod::lemma_mod_multiples_basic(t, 2 * m);
    }
}

/// A block's buddy is distinct from it, and taking the buddy twice leads
/// back to the block.
proof fn lemma_buddy_symm(p: int, k: nat)
    requires
        p >= 0,
        p % pow2(k) as int == 0,
    ensures
        buddy_of(buddy_of(p, k), k) == p,
        buddy_of(p, k) != p,
{
    lemma_pow2_pos(k);
    lemma_pow2_unfold((k + 1) as nat);
    lemma_merge_align(p, pow2(k) as int);
    let m = pow2(k) as int;
    if p % (2 * m) == 0 {
        let b = p + m;
        vstd::arithmetic::div_mod::lemma_fundamental_div_mod(p, 2 * m);
        let t = p / (2 * m);
        assert(b == (2 * m) * t + m);
        vstd::arithmetic::div_mod::lemma_fundamental_div_mod_converse(b, 2 * m, t, m);
    } else {
        let b = p - m;
        assert(b % (2 * m) == 0);
    }
}

/// Removing block `idx` of list `i` removes exactly that block's pages from
/// the free set.
proof fn lemma_remove_free(pre: PageAllocator, post: PageAllocator, i: int, idx: int)
    requires
        pre.wf(),
        0 <= i < ORDER,
        0 <= idx < pre.free_list@[i]@.len(),
        post.free_list@.len() == ORDER,
        post.free_list@[i]@ == pre.free_list@[i]@.remove(idx),
        forall|k: int| 0 <= k < ORDER && k != i ==> post.free_list@[k]@ == pre.free_list@[k]@,
        post.tracker == pre.tracker,
    ensures
        forall|q: int|
            #[trigger] post.free_in(q) <==> (pre.free_in(q) && !pre.covers(i, idx, q)),
        post.wf(),
{
    // Map a block of `post` to the block of `pre` it came from.
    assert forall|i2: int, j2: int| post.block_in_range(i2, j2)
        implies pre.block_in_range(i2, if i2 == i && j2 >= idx { j2 + 1 } else { j2 })
            && post.free_list@[i2]@[j2] == pre.free_list@[i2]@[
                if i2 == i && j2 >= idx { j2 + 1 } else { j2 }] by {
    }
    assert forall|q: int|
        #[trigger] post.free_in(q)
            implies (pre.free_in(q) && !pre.covers(i, idx, q)) by {
        let (i2, j2) = choose|i2: int, j2: int|
            post.block_in_range(i2, j2) && #[trigger] post.covers(i2, j2, q);
        let j2p = if i2 == i && j2 >= idx { j2 + 1 } else { j2 };
        assert(pre.block_in_range(i2, j2p));
        assert(pre.covers(i2, j2p, q));
        assert(!(i2 == i && j2p == idx));
    }
    assert forall|q: int|
        pre.free_in(q) && !pre.covers(i, idx, q)
            implies #[trigger] post.free_in(q) by {
        let (i2, j2) = choose|i2: int, j2: int|
            pre.block_in_range(i2, j2) && #[trigger] pre.covers(i2, j2, q);
        assert(!(i2 == i && j2 == idx));
        let j2n = if i2 == i && j2 > idx { j2 - 1 } else { j2 };
        assert(post.block_in_range(i2, j2n));
        assert(post.covers(i2, j2n, q));
    }
    assert forall|i2: int, j2: int| post.block_in_range(i2, j2)
        implies #[trigger] post.block_ok(i2, j2) by {
        let j2p = if i2 == i && j2 >= idx { j2 + 1 } else { j2 };
        assert(pre.block_ok(i2, j2p));
    }
    assert forall|i1: int, j1: int, i2: int, j2: int, p: int|
        post.block_in_range(i1, j1) && post.block_in_range(i2, j2) && !(i1 == i2 && j1 == j2)
            implies !(#[trigger] post.covers(i1, j1, p) && #[trigger] post.covers(i2, j2, p)) by {
        if post.covers(i1, j1, p) && post.covers(i2, j2, p) {
            let j1p = if i1 == i && j1 >= idx { j1 + 1 } else { j1 };
            let j2p = if i2 == i && j2 >= idx { j2 + 1 } else { j2 };
            assert(pre.covers(i1, j1p, p));
            assert(pre.covers(i2, j2p, p));
            assert(!(i1 == i2 && j1p == j2p));
        }
    }
    assert forall|i2: int, j2: int, p: int|
        post.block_in_range(i2, j2) && #[trigger] post.covers(i2, j2, p)
            implies post.tracker.rc_at(p) == 0 by {
        let j2p = if i2 == i && j2 >= idx { j2 + 1 } else { j2 };
        assert(pre.covers(i2, j2p, p));
    }
    assert forall|i1: int, j1: int, j2: int|
        0 <= i1 < ORDER - 1 && 0 <= j1 < post.free_list@[i1]@.len()
            && 0 <= j2 < post.free_list@[i1]@.len()
            implies (#[trigger] post.free_list@[i1]@[j1]).0 as int
                != buddy_of((#[trigger] post.free_list@[i1]@[j2]).0 as int, i1 as nat) by {
        let j1p = if i1 == i && j1 >= idx { j1 + 1 } else { j1 };
        let j2p = if i1 == i && j2 >= idx { j2 + 1 } else { j2 };
        assert(post.free_list@[i1]@[j1] == pre.free_list@[i1]@[j1p]);
        assert(post.free_list@[i1]@[j2] == pre.free_list@[i1]@[j2p]);
    }
}

/// A block aligned to `2 * m` is aligned to `m`, and so is its upper half.
proof fn lemma_align_split(x: int, m: int)
    requires
        m >= 1,
        x >= 0,
        x % (2 * m) == 0,
    ensures
        x % m == 0,
        (x + m) % m == 0,
{
    vstd::arithmetic::div_mod::lemma_fundamental_div_mod(x, 2 * m);
    let k = x / (2 * m);
    assert((2 * m) * k == (2 * k) * m) by (nonlinear_arith) {}
    vstd::arithmetic::div_mod::lemma_mod_multiples_basic(2 * k, m);
    assert((2 * k + 1) * m == (2 * k) * m + m) by (nonlinear_arith) {}
    vstd::arithmetic::div_mod::lemma_mod_multiples_basic(2 * k + 1, m);
}

/// Popping the last block of list `i` removes exactly that block's pages
/// from the free set.
proof fn lemma_pop_free(pre: PageAllocator, post: PageAllocator, i: int)
    requires
        pre.wf(),
        0 <= i < ORDER,
        pre.free_list@[i]@.len() >= 1,
        post.free_list@.len() == ORDER,
        post.free_list@[i]@ == pre.free_list@[i]@.drop_last(),
        forall|k: int| 0 <= k < ORDER && k != i ==> post.free_list@[k]@ == pre.free_list@[k]@,
        post.tracker == pre.tracker,
    ensures
        forall|q: int|
            #[trigger] post.free_in(q)
                <==> (pre.free_in(q) && !pre.covers(i, pre.free_list@[i]@.len() - 1, q)),
        post.wf(),
{
    let jlast = pre.free_list@[i]@.len() - 1;
    assert forall|q: int|
        #[trigger] post.free_in(q)
            implies (pre.free_in(q) && !pre.covers(i, jlast, q)) by {
        let (i2, j2) = choose|i2: int, j2: int|
            post.block_in_range(i2, j2) && #[trigger] post.covers(i2, j2, q);
        assert(pre.block_in_range(i2, j2));
        assert(pre.covers(i2, j2, q));
        assert(!(i2 == i && j2 == jlast));
    }
    assert forall|q: int|
        pre.free_in(q) && !pre.covers(i, jlast, q)
            implies #[trigger] post.free_in(q) by {
        let (i2, j2) = choose|i2: int, j2: int|
            pre.block_in_range(i2, j2) && #[trigger] pre.covers(i2, j2, q);
        assert(!(i2 == i && j2 == jlast));
        assert(post.block_in_range(i2, j2));
        assert(post.covers(i2, j2, q));
    }
    assert forall|i2: int, j2: int| post.block_in_range(i2, j2)
        implies #[trigger] post.block_ok(i2, j2) by {
        assert(pre.block_in_range(i2, j2));
        assert(pre.block_ok(i2, j2));
    }
    assert forall|i1: int, j1: int, i2: int, j2: int, p: int|
        post.block_in_range(i1, j1) && post.block_in_range(i2, j2) && !(i1 == i2 && j1 == j2)
            implies !(#[trigger] post.covers(i1, j1, p) && #[trigger] post.covers(i2, j2, p)) by {
        assert(pre.block_in_range(i1, j1) && pre.block_in_range(i2, j2));
        if post.covers(i1, j1, p) && post.covers(i2, j2, p) {
            assert(pre.covers(i1, j1, p) && pre.covers(i2, j2, p));
        }
    }
    assert forall|i2: int, j2: int, p: int|
        post.block_in_range(i2, j2) && #[trigger] post.covers(i2, j2, p)
            implies post.tracker.rc_at(p) == 0 by {
        assert(pre.block_in_range(i2, j2));
        assert(pre.covers(i2, j2, p));
    }
    assert forall|i1: int, j1: int, j2: int|
        0 <= i1 < ORDER - 1 && 0 <= j1 < post.free_list@[i1]@.len()
            && 0 <= j2 < post.free_list@[i1]@.len()
            implies (#[trigger] post.free_list@[i1]@[j1]).0 as int
                != buddy_of((#[trigger] post.free_list@[i1]@[j2]).0 as int, i1 as nat) by {
        assert(post.free_list@[i1]@[j1] == pre.free_list@[i1]@[j1]);
        assert(post.free_list@[i1]@[j2] == pre.free_list@[i1]@[j2]);
    }
}

/// Pushing a block of pages that are not currently free, unreferenced,
/// aligned and in range adds exactly those pages to the free set.
proof fn lemma_push_free(pre: PageAllocator, post: PageAllocator, i: int, b: int)
    requires
        pre.wf(),
        0 <= i < ORDER,
        post.free_list@.len() == ORDER,
        post.free_list@[i]@ == pre.free_list@[i]@.push(PPN(b as usize)),
        forall|k: int| 0 <= k < ORDER && k != i ==> post.free_list@[k]@ == pre.free_list@[k]@,
        post.tracker == pre.tracker,
        0 <= b,
        b % pow2(i as nat) as int == 0,
        b + pow2(i as nat) <= pre.npages(),
        forall|q: int| b <= q < b + pow2(i as nat) ==> !pre.free_in(q),
        forall|q: int| b <= q < b + pow2(i as nat) ==> pre.tracker.rc_at(q) == 0,
        i < ORDER - 1 ==> forall|j: int|
            0 <= j < pre.free_list@[i]@.len()
                ==> (#[trigger] pre.free_list@[i]@[j]).0 as int != buddy_of(b, i as nat),
    ensures
        forall|q: int|
            #[trigger] post.free_in(q) <==> (pre.free_in(q) || (b <= q < b + pow2(i as nat))),
        post.wf(),
{
    let jnew = pre.free_list@[i]@.len() as int;
    assert(post.block_base(i, jnew) == b);
    assert forall|q: int|
        #[trigger] post.free_in(q)
            implies (pre.free_in(q) || (b <= q < b + pow2(i as nat))) by {
        let (i2, j2) = choose|i2: int, j2: int|
            post.block_in_range(i2, j2) && #[trigger] post.covers(i2, j2, q);
        if i2 == i && j2 == jnew {
            assert(b <= q < b + pow2(i as nat));
        } else {
            assert(pre.block_in_range(i2, j2));
            assert(pre.covers(i2, j2, q));
        }
    }
    assert forall|q: int|
        pre.free_in(q) || (b <= q < b + pow2(i as nat))
            implies #[trigger] post.free_in(q) by {
        if pre.free_in(q) {
            let (i2, j2) = choose|i2: int, j2: int|
                pre.block_in_range(i2, j2) && #[trigger] pre.covers(i2, j2, q);
            assert(post.block_in_range(i2, j2));
            assert(post.covers(i2, j2, q));
        } else {
            assert(post.block_in_range(i, jnew));
            assert(post.covers(i, jnew, q));
        }
    }
    assert forall|i2: int, j2: int| post.block_in_range(i2, j2)
        implies #[trigger] post.block_ok(i2, j2) by {
        if i2 == i && j2 == jnew {
            assert(post.block_base(i2, j2) == b);
        } else {
            assert(pre.block_in_range(i2, j2));
            assert(pre.block_ok(i2, j2));
        }
    }
    assert forall|i1: int, j1: int, i2: int, j2: int, p: int|
        post.block_in_range(i1, j1) && post.block_in_range(i2, j2) && !(i1 == i2 && j1 == j2)
            implies !(#[trigger] post.covers(i1, j1, p) && #[trigger] post.covers(i2, j2, p)) by {
        if post.covers(i1, j1, p) && post.covers(i2, j2, p) {
            if i1 == i && j1 == jnew {
                assert(pre.block_in_range(i2, j2));
                assert(pre.covers(i2, j2, p));
                assert(pre.free_in(p));
                assert(b <= p < b + pow2(i as nat));
            } else if i2 == i && j2 == jnew {
                assert(pre.block_in_range(i1, j1));
                assert(pre.covers(i1, j1, p));
                assert(pre.free_in(p));
                assert(b <= p < b + pow2(i as nat));
            } else {
                assert(pre.covers(i1, j1, p) && pre.covers(i2, j2, p));
            }
        }
    }
    assert forall|i2: int, j2: int, p: int|
        post.block_in_range(i2, j2) && #[trigger] post.covers(i2, j2, p)
            implies post.tracker.rc_at(p) == 0 by {
        if i2 == i && j2 == jnew {
            assert(b <= p < b + pow2(i as nat));
        } else {
            assert(pre.covers(i2, j2, p));
        }
    }
    // eager coalescing is kept: nothing on the list was the new block's
    // buddy, and by symmetry the new block is nobody's buddy either
    assert forall|i1: int, j1: int, j2: int|
        0 <= i1 < ORDER - 1 && 0 <= j1 < post.free_list@[i1]@.len()
            && 0 <= j2 < post.free_list@[i1]@.len()
            implies (#[trigger] post.free_list@[i1]@[j1]).0 as int
                != buddy_of((#[trigger] post.free_list@[i1]@[j2]).0 as int, i1 as nat) by {
        if i1 == i && (j1 == jnew || j2 == jnew) {
            lemma_buddy_symm(b, i as nat);
            if j1 == jnew && j2 == jnew {
            } else if j2 == jnew {
                assert(pre.free_list@[i]@[j1].0 as int != buddy_of(b, i as nat));
            } else {
                let x = pre.free_list@[i]@[j2].0 as int;
                assert(pre.block_ok(i, j2));
                lemma_buddy_symm(x, i as nat);
                assert(x != buddy_of(b, i as nat));
                if b == buddy_of(x, i as nat) {
                    assert(buddy_of(b, i as nat) == x);
                }
            }
        } else {
            assert(pre.free_list@[i1]@[j1] == post.free_list@[i1]@[j1]);
            assert(pre.free_list@[i1]@[j2] == post.free_list@[i1]@[j2]);
        }
    }
}


/// What a deallocation did: exactly the block's pages joined the free set;
/// the reference counts are untouched.
pub open spec fn dealloc_post(pre: PageAllocator, post: PageAllocator, p: int, size: int) -> bool {
    &&& (forall|q: int|
        #[trigger] post.free_in(q) <==> (pre.free_in(q) || (p <= q < p + size)))
    &&& post.tracker == pre.tracker
}

impl PageAllocator {
    /// Returns the block of `size` pages at `ppn` to the free lists, then
    /// eagerly coalesces: while the block's buddy is also free at the same
    /// order, both are merged into their parent block one order up.
    ///
    /// The caller must own the block: its pages are not free and their
    /// reference counts have already been brought to zero.
    pub fn dealloc(&mut self, ppn: PPN, size: usize)
        requires
            old(self).wf(),
            1 <= size <= 0x8000_0000,
            size == pow2(order_of(size as int)),
            ppn.0 as int % size as int == 0,
            ppn.0 + size <= old(self).npages(),
            forall|q: int| ppn.0 <= q < ppn.0 + size ==> !(#[trigger] old(self).free_in(q)),
            forall|q: int|
                ppn.0 <= q < ppn.0 + size ==> (#[trigger] old(self).tracker.rc_at(q)) == 0,
        ensures
            final(self).wf(),
            final(self).tracker == old(self).tracker,
            final(self).free_list@.len() == ORDER,
            dealloc_post(*old(self), *final(self), ppn.0 as int, size as int),
            // The freed range now lies inside a single free block of at
            // least the freed order.
            exists|fi: int, fj: int|
                final(self).block_in_range(fi, fj) && order_of(size as int) <= fi
                    && #[trigger] final(self).block_base(fi, fj) <= ppn.0
                    && ppn.0 + size <= final(self).block_base(fi, fj) + pow2(fi as nat),
            // Without a free buddy at its own order, the block is simply
            // pushed on that order's list, newest last, and no other list
            // changes.
            (forall|j: int|
                0 <= j < old(self).free_list@[order_of(size as int) as int]@.len()
                    ==> (#[trigger] old(self).free_list@[order_of(size as int) as int]@[j]).0
                        != buddy_of(ppn.0 as int, order_of(size as int)))
                ==> final(self).free_list@[order_of(size as int) as int]@
                    == old(self).free_list@[order_of(size as int) as int]@.push(ppn)
                    && (forall|i: int|
                        0 <= i < ORDER && i != order_of(size as int)
                            ==> #[trigger] final(self).free_list@[i]@
                                == old(self).free_list@[i]@),
            // Coalescing: if the block's buddy was free at the same order,
            // the two now lie inside a single free block one order up or more.
            (exists|j: int|
                0 <= j < old(self).free_list@[order_of(size as int) as int]@.len()
                    && (#[trigger] old(self).free_list@[order_of(size as int) as int]@[j]).0
                        == buddy_of(ppn.0 as int, order_of(size as int)))
                ==> exists|fi: int, fj: int|
                    final(self).block_in_range(fi, fj) && order_of(size as int) + 1 <= fi
                        && #[trigger] final(self).block_base(fi, fj) <= ppn.0
                        && ppn.0 + size <= final(self).block_base(fi, fj) + pow2(fi as nat),
    {
        let (order, _) = size_to_order(size);
        let mut cur: usize = order;
        let mut csize: usize = size;
        let mut cppn: PPN = ppn;
        let mut merging: bool = true;
        while merging && cur < ORDER - 1
            invariant
                order_of(size as int) == order,
                order <= cur <= ORDER - 1,
                csize == pow2(cur as nat),
                size == pow2(order as nat),
                old(self).wf(),
                self.wf(),
                self.free_list@.len() == ORDER,
                self.tracker == old(self).tracker,
                cppn.0 as int % pow2(cur as nat) as int == 0,
                cppn.0 + pow2(cur as nat) <= old(self).npages(),
                cppn.0 <= ppn.0,
                ppn.0 + size <= cppn.0 + pow2(cur as nat),
                cur == order ==> cppn == ppn && *self == *old(self),
                !merging ==> forall|j: int|
                    0 <= j < self.free_list@[cur as int]@.len()
                        ==> (#[trigger] self.free_list@[cur as int]@[j]).0 as int
                            != buddy_of(cppn.0 as int, cur as nat),
                cur > order ==> exists|j: int|
                    0 <= j < old(self).free_list@[order as int]@.len()
                        && (#[trigger] old(self).free_list@[order as int]@[j]).0
                            == buddy_of(ppn.0 as int, order as nat),
                (exists|j: int|
                    0 <= j < old(self).free_list@[order as int]@.len()
                        && (#[trigger] old(self).free_list@[order as int]@[j]).0
                            == buddy_of(ppn.0 as int, order as nat)) && cur == order
                    ==> merging,
                forall|q: int| #[trigger] self.free_in(q) ==> old(self).free_in(q),
                forall|q: int|
                    (old(self).free_in(q) || (ppn.0 <= q < ppn.0 + size))
                        ==> (#[trigger] self.free_in(q)
                            || (cppn.0 <= q < cppn.0 + pow2(cur as nat))),
                forall|q: int|
                    cppn.0 <= q < cppn.0 + pow2(cur as nat) ==> !(#[trigger] self.free_in(q)),
                forall|q: int|
                    cppn.0 <= q < cppn.0 + pow2(cur as nat)
                        ==> (old(self).free_in(q) || (ppn.0 <= q < ppn.0 + size)),
                forall|q: int|
                    cppn.0 <= q < cppn.0 + pow2(cur as nat)
                        ==> (#[trigger] self.tracker.rc_at(q)) == 0,
            decreases ORDER - cur + (if merging { 1int } else { 0 }),
        {
            proof {
                lemma_pow2_pos(cur as nat);
                lemma_merge_align(cppn.0 as int, pow2(cur as nat) as int);
                lemma_pow2_unfold((cur + 1) as nat);
            }
            let lower: bool = cppn.0 % (csize * 2) == 0;
            let buddy: usize = if lower { cppn.0 + csize } else { cppn.0 - csize };
            proof {
                assert(buddy == buddy_of(cppn.0 as int, cur as nat));
            }
            // Look for the buddy on this order's free list.
            let n = self.free_list[cur].len();
            let mut idx: usize = 0;
            while idx < n && self.free_list[cur][idx].0 != buddy
                invariant
                    idx <= n,
                    cur < ORDER,
                    self.free_list@.len() == ORDER,
                    n == self.free_list@[cur as int]@.len(),
                    forall|j: int|
                        0 <= j < idx ==> (#[trigger] self.free_list@[cur as int]@[j]).0 != buddy,
                decreases n - idx,
            {
                idx = idx + 1;
            }
            if idx == n {
                // No free buddy: stop coalescing.
                proof {
                    assert forall|j2: int|
                        0 <= j2 < self.free_list@[cur as int]@.len()
                            implies (#[trigger] self.free_list@[cur as int]@[j2]).0 as int
                                != buddy_of(cppn.0 as int, cur as nat) by {
                        assert(self.free_list@[cur as int]@[j2].0 != buddy);
                    }
                    if cur == order {
                        assert forall|j: int|
                            0 <= j < old(self).free_list@[order as int]@.len()
                                implies (#[trigger] old(self).free_list@[order as int]@[j]).0
                                    != buddy_of(ppn.0 as int, order as nat) by {
                            assert(self.free_list@[cur as int]@[j].0 != buddy);
                        }
                    }
                }
                merging = false;
            } else {
                // Merge with the buddy: remove it and go one order up.
                let ghost prerm = *self;
                let ghost bj = idx as int;
                proof {
                    if cur == order {
                        assert(old(self).free_list@[order as int]@[bj].0
                            == buddy_of(ppn.0 as int, order as nat));
                    }
                }
                self.free_list[cur].remove(idx);
                proof {
                    lemma_remove_free(prerm, *self, cur as int, bj);
                    assert(prerm.block_base(cur as int, bj) == buddy);
                    assert(prerm.block_ok(cur as int, bj));
                }
                let merged: usize = if cppn.0 < buddy { cppn.0 } else { buddy };
                proof {
                    let m = pow2(cur as nat) as int;
                    assert forall|q: int| cppn.0 <= q < cppn.0 + m
                        implies !(#[trigger] self.free_in(q)) by {
                        assert(!prerm.free_in(q));
                    }
                    assert forall|q: int| buddy <= q < buddy + m
                        implies !(#[trigger] self.free_in(q)) by {
                        assert(prerm.covers(cur as int, bj, q));
                    }
                    assert forall|q: int| buddy <= q < buddy + m
                        implies (#[trigger] self.tracker.rc_at(q)) == 0 by {
                        assert(prerm.covers(cur as int, bj, q));
                        assert(prerm.tracker.rc_at(q) == 0);
                    }
                    assert forall|q: int| buddy <= q < buddy + m
                        implies #[trigger] old(self).free_in(q) by {
                        assert(prerm.covers(cur as int, bj, q));
                        assert(prerm.free_in(q));
                    }
                }
                cppn = PPN(merged);
                cur = cur + 1;
                csize = csize * 2;
            }
        }
        // Push the coalesced block onto its order's list.
        let ghost prepush = *self;
        self.free_list[cur].push(cppn);
        proof {
            // either the last scan found no buddy, or the top order was
            // reached, where the coalescing clause does not apply
            assert(cur < ORDER - 1 ==> forall|j2: int|
                0 <= j2 < prepush.free_list@[cur as int]@.len()
                    ==> (#[trigger] prepush.free_list@[cur as int]@[j2]).0 as int
                        != buddy_of(cppn.0 as int, cur as nat));
            lemma_push_free(prepush, *self, cur as int, cppn.0 as int);
            let fj = prepush.free_list@[cur as int]@.len() as int;
            assert(self.block_in_range(cur as int, fj));
            assert(self.block_base(cur as int, fj) == cppn.0);
            assert forall|q: int|
                #[trigger] self.free_in(q)
                    implies (old(self).free_in(q) || (ppn.0 <= q < ppn.0 + size)) by {
            }
            assert forall|q: int|
                (old(self).free_in(q) || (ppn.0 <= q < ppn.0 + size))
                    implies #[trigger] self.free_in(q) by {
            }
            if forall|j: int|
                0 <= j < old(self).free_list@[order as int]@.len()
                    ==> (#[trigger] old(self).free_list@[order as int]@[j]).0
                        != buddy_of(ppn.0 as int, order as nat) {
                // no merge can have happened
                assert(cur == order) by {
                    if cur > order {
                        let j = choose|j: int|
                            0 <= j < old(self).free_list@[order as int]@.len()
                                && (#[trigger] old(self).free_list@[order as int]@[j]).0
                                    == buddy_of(ppn.0 as int, order as nat);
                    }
                }
                assert(prepush == *old(self));
                assert(self.free_list@[order as int]@
                    == old(self).free_list@[order as int]@.push(ppn));
            }
            if exists|j: int|
                0 <= j < old(self).free_list@[order as int]@.len()
                    && (#[trigger] old(self).free_list@[order as int]@[j]).0
                        == buddy_of(ppn.0 as int, order as nat) {
                if cur == order {
                    // The buddy was free, so the loop cannot have stopped at
                    // the freed order unless no higher order exists; and an
                    // order-31 block cannot fit in memory at all.
                    assert(cur == ORDER - 1);
                    let j = choose|j: int|
                        0 <= j < old(self).free_list@[order as int]@.len()
                            && (#[trigger] old(self).free_list@[order as int]@[j]).0
                                == buddy_of(ppn.0 as int, order as nat);
                    assert(old(self).block_ok(order as int, j));
                    lemma2_to64();
                    assert(pow2(31) == 0x8000_0000);
                    assert(false);
                }
            }
        }
    }
}


/// Divisibility is transitive: if `b` divides `c` and `a` divides `b`,
/// then `a` divides `c`.
proof fn lemma_divides_trans(a: int, b: int, c: int)
    requires
        a >= 1,
        b >= 1,
        c >= 0,
        c % b == 0,
        b % a == 0,
    ensures
        c % a == 0,
{
    vstd::arithmetic::div_mod::lemma_fundamental_div_mod(c, b);
    vstd::arithmetic::div_mod::lemma_fundamental_div_mod(b, a);
    let q = c / b;
    let m = b / a;
    assert(c == (a * m) * q);
    assert((a * m) * q == (m * q) * a) by (nonlinear_arith) {}
    vstd::arithmetic::div_mod::lemma_mod_multiples_basic(m * q, a);
}

/// A smaller power of two divides a larger one.
proof fn lemma_pow2_divides(a: nat, b: nat)
    requires
        a <= b,
    ensures
        pow2(b) as int % pow2(a) as int == 0,
{
    vstd::arithmetic::power2::lemma_pow2_adds((b - a) as nat, a);
    lemma_pow2_pos(a);
    lemma_pow2_pos((b - a) as nat);
    vstd::arithmetic::div_mod::lemma_mod_multiples_basic(pow2((b - a) as nat) as int, pow2(a) as int);
}

/// The largest power of two dividing `x`.
fn lowbit(x: usize) -> (r: usize)
    requires
        1 <= x <= 0x10_0000,
    ensures
        1 <= r <= x,
        x as int % r as int == 0,
        r == pow2(order_of(r as int)),
{
    let mut r: usize = 1;
    let mut k: usize = 0;
    proof {
        vstd::arithmetic::power::lemma_pow0(2);
    }
    while (x / r) % 2 == 0
        invariant
            1 <= x <= 0x10_0000,
            1 <= r <= x,
            x as int % r as int == 0,
            r == pow2(k as nat),
            k <= 20,
        decreases x - r,
    {
        proof {
            vstd::arithmetic::div_mod::lemma_fundamental_div_mod(x as int, r as int);
            let q = x as int / r as int;
            vstd::arithmetic::div_mod::lemma_fundamental_div_mod(q, 2);
            let t = q / 2;
            assert(x as int == r * (2 * t));
            assert(r * (2 * t) == (2 * r) * t + 0) by (nonlinear_arith) {}
            assert(t >= 1) by {
                if t <= 0 {
                    assert((2 * r) * t <= 0) by (nonlinear_arith)
                        requires r >= 1, t <= 0,
                    {}
                }
            }
            assert((2 * r) * 1 <= (2 * r) * t) by (nonlinear_arith)
                requires t >= 1, r >= 1,
            {}
            vstd::arithmetic::div_mod::lemma_fundamental_div_mod_converse(
                x as int, 2 * r as int, t, 0);
            lemma_pow2_unfold((k + 1) as nat);
            if k + 1 > 20 {
                lemma_pow2_strictly_increases(20, (k + 1) as nat);
                lemma2_to64();
                assert(false);
            }
        }
        r = r * 2;
        k = k + 1;
    }
    proof {
        if k >= 1 {
            lemma_pow2_unfold(k as nat);
            lemma_pow2_pos((k - 1) as nat);
        }
        lemma_order_of_unique(r as int, k as nat);
    }
    r
}

/// The largest power of two that is at most `x`.
fn prev_pow2(x: usize) -> (r: usize)
    requires
        1 <= x <= 0x10_0000,
    ensures
        1 <= r <= x,
        r == pow2(order_of(r as int)),
{
    let mut r: usize = 1;
    let mut k: usize = 0;
    proof {
        vstd::arithmetic::power::lemma_pow0(2);
    }
    while r <= x / 2
        invariant
            1 <= x <= 0x10_0000,
            1 <= r <= x,
            r == pow2(k as nat),
            k <= 20,
        decreases x - r,
    {
        proof {
            lemma_pow2_unfold((k + 1) as nat);
            vstd::arithmetic::div_mod::lemma_fundamental_div_mod(x as int, 2);
            if k + 1 > 20 {
                lemma_pow2_strictly_increases(20, (k + 1) as nat);
                lemma2_to64();
                assert(false);
            }
        }
        r = r * 2;
        k = k + 1;
    }
    proof {
        if k >= 1 {
            lemma_pow2_unfold(k as nat);
            lemma_pow2_pos((k - 1) as nat);
        }
        lemma_order_of_unique(r as int, k as nat);
    }
    r
}


/// Changing reference counts only at a non-free page (or only the tracker's
/// location fields) preserves the allocator invariant and the free set.
pub(crate) proof fn lemma_wf_update_rc(pre: PageAllocator, post: PageAllocator, target: int)
    requires
        pre.wf(),
        post.free_list == pre.free_list,
        post.tracker.size == pre.tracker.size,
        post.tracker.rc@.len() == pre.tracker.rc@.len(),
        forall|p: int|
            0 <= p < post.tracker.rc@.len() && p != target
                ==> (#[trigger] post.tracker.rc_at(p)) == pre.tracker.rc_at(p),
        !pre.free_in(target),
    ensures
        post.wf(),
        forall|q: int| #[trigger] post.free_in(q) <==> pre.free_in(q),
{
    assert forall|q: int| #[trigger] post.free_in(q) implies pre.free_in(q) by {
        let (i2, j2) = choose|i2: int, j2: int|
            post.block_in_range(i2, j2) && #[trigger] post.covers(i2, j2, q);
        assert(pre.block_in_range(i2, j2));
        assert(pre.covers(i2, j2, q));
    }
    assert forall|q: int| pre.free_in(q) implies #[trigger] post.free_in(q) by {
        let (i2, j2) = choose|i2: int, j2: int|
            pre.block_in_range(i2, j2) && #[trigger] pre.covers(i2, j2, q);
        assert(post.block_in_range(i2, j2));
        assert(post.covers(i2, j2, q));
    }
    assert forall|i2: int, j2: int| post.block_in_range(i2, j2)
        implies #[trigger] post.block_ok(i2, j2) by {
        assert(pre.block_in_range(i2, j2));
        assert(pre.block_ok(i2, j2));
    }
    assert forall|i1: int, j1: int, i2: int, j2: int, p: int|
        post.block_in_range(i1, j1) && post.block_in_range(i2, j2) && !(i1 == i2 && j1 == j2)
            implies !(#[trigger] post.covers(i1, j1, p) && #[trigger] post.covers(i2, j2, p)) by {
        if post.covers(i1, j1, p) && post.covers(i2, j2, p) {
            assert(pre.block_in_range(i1, j1) && pre.block_in_range(i2, j2));
            assert(pre.covers(i1, j1, p) && pre.covers(i2, j2, p));
        }
    }
    assert forall|i2: int, j2: int, p: int|
        post.block_in_range(i2, j2) && #[trigger] post.covers(i2, j2, p)
            implies post.tracker.rc_at(p) == 0 by {
        assert(pre.block_in_range(i2, j2));
        assert(pre.covers(i2, j2, p));
        assert(pre.free_in(p));
        assert(p != target);
        assert(pre.tracker.rc_at(p) == 0);
        assert(pre.block_ok(i2, j2));
        lemma_pow2_pos(i2 as nat);
        assert(0 <= p < post.tracker.rc@.len());
        assert(post.tracker.rc_at(p) == pre.tracker.rc_at(p));
    }
    assert forall|i1: int, j1: int, j2: int|
        0 <= i1 < ORDER - 1 && 0 <= j1 < post.free_list@[i1]@.len()
            && 0 <= j2 < post.free_list@[i1]@.len()
            implies (#[trigger] post.free_list@[i1]@[j1]).0 as int
                != buddy_of((#[trigger] post.free_list@[i1]@[j2]).0 as int, i1 as nat) by {
        assert(post.free_list@[i1]@[j1] == pre.free_list@[i1]@[j1]);
        assert(post.free_list@[i1]@[j2] == pre.free_list@[i1]@[j2]);
    }
}

/// Size in bytes of one reference-count record as laid out in a physical
/// page on the real machine (two placeholder words and the count, padded).
pub const PAGE_RC_BYTES: usize = 12;

impl PageAllocator {
    /// Boot-time initialization over physical pages `[start, end)`.
    ///
    /// Pages below `start` hold the kernel image and are marked permanently
    /// referenced. The range `[start, end)` is decomposed into maximal
    /// aligned power-of-two runs and freed. The allocator then reserves a
    /// power-of-two block of pages for its own reference-count array
    /// (marking the used part referenced and freeing the tail again).
    ///
    /// Returns `false`, leaving every page of `[start, end)` free, if no
    /// block large enough for the reference-count array exists.
    pub fn init(&mut self, mem: &mut PhysMem, start: PPN, end: PPN) -> (ok: bool)
        requires
            old(self).wf(),
            old(self).tracker.size == 0,
            forall|i: int| 0 <= i < ORDER ==> #[trigger] old(self).free_list@[i]@.len() == 0,
            old(mem).wf(),
            old(mem).page_count == end.0,
            0 < start.0 < end.0,
            end.0 <= 0x10_0000,
        ensures
            final(self).wf(),
            final(mem).wf(),
            final(self).free_list@.len() == ORDER,
            final(self).npages() == end.0,
            final(mem).page_count == end.0,
            forall|p: int, k: int|
                0 <= p < end.0 && 0 <= k < PAGE_WORDS
                    ==> #[trigger] final(mem).word(p, k) == old(mem).word(p, k)
                        || final(mem).word(p, k) == 0,
            ok ==> {
                let t = final(self).tracker;
                &&& t.page_count == (end.0 + 340nat) / 341
                &&& t.page_count >= 1
                &&& start.0 <= t.ppn.0
                &&& t.ppn.0 + t.page_count <= end.0
                &&& (forall|p: int| 0 <= p < start.0 ==> (#[trigger] t.rc_at(p)) == 1)
                &&& (forall|p: int|
                    t.ppn.0 <= p < t.ppn.0 + t.page_count ==> (#[trigger] t.rc_at(p)) == 1)
                &&& (forall|p: int|
                    start.0 <= p < end.0 && !(t.ppn.0 <= p < t.ppn.0 + t.page_count)
                        ==> (#[trigger] t.rc_at(p)) == 0)
                &&& (forall|q: int|
                    #[trigger] final(self).free_in(q)
                        <==> (start.0 <= q < end.0 && !(t.ppn.0 <= q < t.ppn.0 + t.page_count)))
            },
            !ok ==> {
                &&& *final(mem) == *old(mem)
                &&& (forall|q: int|
                    #[trigger] final(self).free_in(q) <==> start.0 <= q < end.0)
            },
    {
        // The reference-count table itself.
        self.tracker.size = end.0;
        self.tracker.rc = vec![PageRc { ref_count: 0u16 }; end.0];
        proof {
            assert forall|i: int, j: int| self.block_in_range(i, j)
                implies #[trigger] self.block_ok(i, j) by {}
            assert forall|q: int| !(#[trigger] self.free_in(q)) by {
                if self.free_in(q) {
                    let (i2, j2) = choose|i2: int, j2: int|
                        self.block_in_range(i2, j2) && #[trigger] self.covers(i2, j2, q);
                }
            }
        }
        // Decompose [start, end) into maximal aligned power-of-two runs.
        let mut current: usize = start.0;
        while current < end.0
            invariant
                start.0 <= current <= end.0,
                0 < start.0 < end.0 <= 0x10_0000,
                self.wf(),
                self.free_list@.len() == ORDER,
                self.tracker.size == end.0,
                self.tracker.ppn == old(self).tracker.ppn,
                self.tracker.page_count == old(self).tracker.page_count,
                forall|p: int| 0 <= p < end.0 ==> (#[trigger] self.tracker.rc_at(p)) == 0,
                forall|q: int| #[trigger] self.free_in(q) <==> start.0 <= q < current,
            decreases end.0 - current,
        {
            let low = lowbit(current);
            let prev = prev_pow2(end.0 - current);
            let size = if low <= prev { low } else { prev };
            proof {
                if low > prev {
                    // prev divides low, and low divides current.
                    let ol = order_of(low as int);
                    let op = order_of(prev as int);
                    if op > ol {
                        lemma_order_of_bounds(low as int);
                        lemma_order_of_bounds(prev as int);
                        lemma_pow2_strictly_increases(ol, op);
                    }
                    lemma_pow2_divides(op, ol);
                    lemma_divides_trans(prev as int, low as int, current as int);
                }
            }
            self.dealloc(PPN(current), size);
            current = current + size;
        }
        // Reserve space for the reference-count array.
        let rc_per_page = PAGE_SIZE / PAGE_RC_BYTES;
        let actual_size = (end.0 + rc_per_page - 1) / rc_per_page;
        proof {
            assert(rc_per_page == 341);
            assert(1 <= actual_size <= 0x10_0000);
        }
        let (aorder, acount) = size_to_order(actual_size);
        let ghost dstate = *self;
        let allocated = self.alloc_block(mem, true, actual_size);
        let tppn = match allocated {
            Some(p) => p,
            None => {
                return false;
            },
        };
        let ghost astate = *self;
        proof {
            lemma_pow2_pos(aorder as nat);
            assert(acount == pow2(order_of(actual_size as int)));
            assert(actual_size <= acount);
            assert(dstate.free_in(tppn.0 as int));
            assert(dstate.free_in(tppn.0 + acount - 1));
            assert(start.0 <= tppn.0 && tppn.0 + acount <= end.0);
        }
        self.tracker.ppn = tppn;
        self.tracker.page_count = actual_size;
        proof {
            assert(!astate.free_in(-1)) by {
                if astate.free_in(-1) {
                    let (i2, j2) = choose|i2: int, j2: int|
                        astate.block_in_range(i2, j2) && #[trigger] astate.covers(i2, j2, -1);
                    assert(astate.block_ok(i2, j2));
                }
            }
            lemma_wf_update_rc(astate, *self, -1);
            assert forall|p: int|
                0 <= p < end.0
                    implies (#[trigger] self.tracker.rc_at(p)) == astate.tracker.rc_at(p) by {}
            assert forall|q: int|
                #[trigger] self.free_in(q)
                    implies (start.0 <= q < end.0 && !(tppn.0 <= q < tppn.0 + acount)) by {
                assert(astate.free_in(q));
                assert(dstate.free_in(q) && !(tppn.0 <= q < tppn.0 + acount));
            }
            assert forall|q: int|
                start.0 <= q < end.0 && !(tppn.0 <= q < tppn.0 + acount)
                    implies #[trigger] self.free_in(q) by {
                assert(dstate.free_in(q));
                assert(astate.free_in(q));
            }
        }
        // Pages below `start` hold the kernel image: permanently referenced.
        let mut i: usize = 0;
        while i < start.0
            invariant
                i <= start.0,
                0 < start.0 < end.0 <= 0x10_0000,
                self.wf(),
                self.free_list@.len() == ORDER,
                self.tracker.size == end.0,
                self.tracker.ppn == tppn,
                self.tracker.page_count == actual_size,
                1 <= actual_size <= acount,
                acount == pow2(order_of(actual_size as int)),
                start.0 <= tppn.0 && tppn.0 + acount <= end.0,
                forall|p: int| 0 <= p < i ==> (#[trigger] self.tracker.rc_at(p)) == 1,
                forall|p: int|
                    i <= p < end.0 ==> (#[trigger] self.tracker.rc_at(p)) == 0,
                forall|q: int|
                    #[trigger] self.free_in(q)
                        <==> (start.0 <= q < end.0 && !(tppn.0 <= q < tppn.0 + acount)),
            decreases start.0 - i,
        {
            let ghost prei = *self;
            self.tracker.inc_ref(PPN(i));
            proof {
                assert(!prei.free_in(i as int));
                lemma_wf_update_rc(prei, *self, i as int);
                assert forall|p: int|
                    0 <= p < end.0 && p != i
                        implies (#[trigger] self.tracker.rc_at(p)) == prei.tracker.rc_at(p) by {}
                assert(self.tracker.rc_at(i as int) == 1);
            }
            i = i + 1;
        }
        // The pages the array itself occupies.
        let mut t: usize = 0;
        while t < actual_size
            invariant
                t <= actual_size,
                0 < start.0 < end.0 <= 0x10_0000,
                self.wf(),
                self.free_list@.len() == ORDER,
                self.tracker.size == end.0,
                self.tracker.ppn == tppn,
                self.tracker.page_count == actual_size,
                1 <= actual_size <= acount,
                acount == pow2(order_of(actual_size as int)),
                start.0 <= tppn.0 && tppn.0 + acount <= end.0,
                forall|p: int| 0 <= p < start.0 ==> (#[trigger] self.tracker.rc_at(p)) == 1,
                forall|p: int|
                    tppn.0 <= p < tppn.0 + t ==> (#[trigger] self.tracker.rc_at(p)) == 1,
                forall|p: int|
                    start.0 <= p < end.0 && !(tppn.0 <= p < tppn.0 + t)
                        ==> (#[trigger] self.tracker.rc_at(p)) == 0,
                forall|q: int|
                    #[trigger] self.free_in(q)
                        <==> (start.0 <= q < end.0 && !(tppn.0 <= q < tppn.0 + acount)),
            decreases actual_size - t,
        {
            let ghost prei = *self;
            self.tracker.inc_ref(PPN(tppn.0 + t));
            proof {
                assert(!prei.free_in(tppn.0 + t));
                lemma_wf_update_rc(prei, *self, tppn.0 + t);
                assert forall|p: int|
                    0 <= p < end.0 && p != tppn.0 + t
                        implies (#[trigger] self.tracker.rc_at(p)) == prei.tracker.rc_at(p) by {}
                assert(self.tracker.rc_at(tppn.0 + t) == 1);
            }
            t = t + 1;
        }
        // Free the unused tail of the reserved block again.
        let mut u: usize = actual_size;
        while u < acount
            invariant
                actual_size <= u <= acount,
                0 < start.0 < end.0 <= 0x10_0000,
                self.wf(),
                self.free_list@.len() == ORDER,
                self.tracker.size == end.0,
                self.tracker.ppn == tppn,
                self.tracker.page_count == actual_size,
                1 <= actual_size <= acount,
                start.0 <= tppn.0 && tppn.0 + acount <= end.0,
                forall|p: int| 0 <= p < start.0 ==> (#[trigger] self.tracker.rc_at(p)) == 1,
                forall|p: int|
                    tppn.0 <= p < tppn.0 + actual_size
                        ==> (#[trigger] self.tracker.rc_at(p)) == 1,
                forall|p: int|
                    start.0 <= p < end.0 && !(tppn.0 <= p < tppn.0 + actual_size)
                        ==> (#[trigger] self.tracker.rc_at(p)) == 0,
                forall|q: int|
                    #[trigger] self.free_in(q)
                        <==> (start.0 <= q < end.0
                            && !(tppn.0 <= q < tppn.0 + acount)
                            || (tppn.0 + actual_size <= q < tppn.0 + u)),
            decreases acount - u,
        {
            proof {
                vstd::arithmetic::power::lemma_pow0(2);
                assert(1int % 1int == 0);
            }
            self.dealloc(PPN(tppn.0 + u), 1);
            u = u + 1;
        }
        true
    }
}


/// Any two blocks handed out by successive allocations are disjoint: the
/// second allocation draws from a free set that no longer contains the
/// first block.
pub proof fn lemma_alloc_disjoint(
    s0: PageAllocator,
    s1: PageAllocator,
    s2: PageAllocator,
    size1: int,
    p1: int,
    size2: int,
    p2: int,
)
    requires
        size1 >= 1,
        size2 >= 1,
        alloc_some_post(s0, s1, size1, p1),
        alloc_some_post(s1, s2, size2, p2),
    ensures
        p1 + pow2(order_of(size1)) <= p2 || p2 + pow2(order_of(size2)) <= p1,
{
    let n1 = pow2(order_of(size1)) as int;
    let n2 = pow2(order_of(size2)) as int;
    lemma_pow2_pos(order_of(size1));
    lemma_pow2_pos(order_of(size2));
    if !(p1 + n1 <= p2 || p2 + n2 <= p1) {
        let q = if p1 >= p2 { p1 } else { p2 };
        assert(p1 <= q < p1 + n1);
        assert(p2 <= q < p2 + n2);
        assert(s1.free_in(q));
        assert(!s1.free_in(q));
    }
}

/// A block returned by an allocation is aligned to the allocation's
/// rounded size.
pub proof fn lemma_alloc_aligned(s0: PageAllocator, s1: PageAllocator, size: int, p: int)
    requires
        size >= 1,
        alloc_some_post(s0, s1, size, p),
    ensures
        p % pow2(order_of(size)) as int == 0,
{
}

/// A non-empty free set means some free list is non-empty, so an
/// allocation of one page cannot fail: freed pages really are reusable.
pub proof fn lemma_free_page_allocatable(s: PageAllocator, q: int)
    requires
        s.wf(),
        s.free_in(q),
    ensures
        !(forall|i: int| 0 <= i < ORDER ==> (#[trigger] s.free_list@[i]@.len()) == 0),
{
    let (i2, j2) = choose|i2: int, j2: int|
        s.block_in_range(i2, j2) && #[trigger] s.covers(i2, j2, q);
    assert(s.free_list@[i2]@.len() > 0);
}

/// Coalescing makes the doubled block allocatable: a free block of order
/// at least `order_of(size)` — as deallocation produces when the freed
/// block's buddy was free — defeats the allocator's only failure case for
/// a request of `size` pages.
pub proof fn lemma_coalesced_block_allocatable(
    s: PageAllocator,
    size: int,
    fi: int,
    fj: int,
)
    requires
        s.wf(),
        size >= 1,
        s.block_in_range(fi, fj),
        order_of(size) <= fi,
    ensures
        !(forall|i: int|
            order_of(size) <= i < ORDER ==> (#[trigger] s.free_list@[i]@.len()) == 0),
{
    assert(s.free_list@[fi]@.len() > 0);
}

} // verus!




