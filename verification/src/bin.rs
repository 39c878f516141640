//! The slab/bin allocator layered over the buddy page allocator.
//!
//! A bin serves one power-of-two size class. It keeps slabs — one page
//! each, drawn from the buddy allocator — on three lists: `free` (every
//! slot free), `partial` (mixed) and `full` (every slot taken). Each slab
//! records which of its equally sized slots are allocated in a bitmap.
//!
//! The combined [`Allocator`] routes a request to the smallest bin whose
//! slot size fits it, or to the buddy allocator directly when the request
//! exceeds the largest slab size.

use vstd::prelude::*;

verus! {

use vstd::arithmetic::power2::pow2;
use vstd::arithmetic::power2::lemma_pow2_pos;
use vstd::arithmetic::power2::lemma_pow2_adds;
use vstd::arithmetic::power2::lemma_pow2_strictly_increases;

use crate::bitmap::Bitmap;
use crate::linked_list::LinkedList;
use crate::buddy::BuddyBlockAllocator;
use crate::buddy::mem;
use crate::buddy::distinct;
use crate::buddy::lemma_push_mem;
use crate::buddy::lemma_remove_mem;
use crate::util::AllocErr;
use crate::util::pow2_usize;

/// Pages are `pow2(PAGE_ORDER)` bytes: the buddy allocator's unit.
pub const PAGE_ORDER: usize = 14;

/// Largest buddy block order: blocks up to `pow2(PAGE_ORDER + 10)` bytes.
pub const MAX_BLOCK_ORDER: usize = 10;

/// Smallest bin order: the smallest slab slot is `pow2(3)` bytes.
pub const SLAB_MIN_ORDER: usize = 3;

/// Largest bin order: one below the page order, so at least two slots fit
/// a slab.
pub const SLAB_MAX_ORDER: usize = 13;

/// The bookkeeping for one slab: a page-sized block subdivided into
/// `pow2(PAGE_ORDER - order)` slots of `pow2(order)` bytes, with a bitmap
/// marking the allocated slots. In a kernel this header sits in a trailer
/// at the slab's high end; here it is held by the bin that owns the slab.
pub struct SlabInfo {
    order: usize,
    slab_head: usize,
    map: Bitmap,
}

impl SlabInfo {
    /// The address of the slab's first slot.
    pub closed spec fn head(&self) -> int {
        self.slab_head as int
    }

    /// The bin order: slots are `pow2(ord())` bytes.
    pub closed spec fn ord(&self) -> nat {
        self.order as nat
    }

    /// The allocation bit of each slot.
    pub closed spec fn bits(&self) -> Seq<bool> {
        self.map@
    }

    /// Whether every slot is free.
    pub open spec fn all_clear(&self) -> bool {
        forall|i: int| 0 <= i < self.bits().len() ==> !self.bits()[i]
    }

    /// Whether every slot is allocated.
    pub open spec fn all_set(&self) -> bool {
        forall|i: int| 0 <= i < self.bits().len() ==> self.bits()[i]
    }

    /// The slab's bookkeeping is well formed for a slot order `ord()`
    /// within a page-sized slab.
    pub closed spec fn wf(&self) -> bool {
        &&& self.map.wf()
        &&& self.ord() < PAGE_ORDER
        &&& self.bits().len() == pow2((PAGE_ORDER - self.ord()) as nat)
        &&& self.slab_head as int % (pow2(PAGE_ORDER as nat) as int) == 0
        &&& self.slab_head + pow2(PAGE_ORDER as nat) <= usize::MAX
    }

    /// A fresh slab over `[slab_head, slab_head + page)`, all slots free.
    pub fn new(slab_head: usize, order: usize) -> (r: SlabInfo)
        requires
            order < PAGE_ORDER,
            slab_head as int % (pow2(PAGE_ORDER as nat) as int) == 0,
            slab_head + pow2(PAGE_ORDER as nat) <= usize::MAX,
        ensures
            r.wf(),
            r.head() == slab_head,
            r.ord() == order,
            r.all_clear(),
    {
        proof {
            lemma_pow2_lt_page((PAGE_ORDER - order) as nat);
        }
        let slots = pow2_usize(PAGE_ORDER - order);
        SlabInfo {
            order,
            slab_head,
            map: Bitmap::new(slots),
        }
    }

    /// The address of the slab's first slot.
    pub fn head_addr(&self) -> (r: usize)
        ensures
            r == self.head(),
    {
        self.slab_head
    }

    /// Whether every slot of the slab is allocated.
    pub fn is_full(&self) -> (r: bool)
        requires
            self.wf(),
        ensures
            r == self.all_set(),
    {
        let len = self.map.length();
        let mut i: usize = 0;
        while i < len
            invariant
                self.wf(),
                len == self.bits().len(),
                i <= len,
                forall|j: int| 0 <= j < i ==> self.bits()[j],
            decreases len - i,
        {
            if !self.map.get_bit(i) {
                return false;
            }
            i = i + 1;
        }
        true
    }

    /// Whether every slot of the slab is free.
    pub fn is_empty(&self) -> (r: bool)
        requires
            self.wf(),
        ensures
            r == self.all_clear(),
    {
        let len = self.map.length();
        let mut i: usize = 0;
        while i < len
            invariant
                self.wf(),
                len == self.bits().len(),
                i <= len,
                forall|j: int| 0 <= j < i ==> !self.bits()[j],
            decreases len - i,
        {
            if self.map.get_bit(i) {
                return false;
            }
            i = i + 1;
        }
        true
    }

    /// Allocates the first free slot: marks it and returns its address.
    pub fn allocate(&mut self) -> (r: usize)
        requires
            old(self).wf(),
            !old(self).all_set(),
        ensures
            final(self).wf(),
            final(self).head() == old(self).head(),
            final(self).ord() == old(self).ord(),
            exists|i: int|
                {
                    &&& 0 <= i < old(self).bits().len()
                    &&& !old(self).bits()[i]
                    &&& (forall|j: int| 0 <= j < i ==> old(self).bits()[j])
                    &&& final(self).bits() == old(self).bits().update(i, true)
                    &&& r == old(self).head() + i * pow2(old(self).ord())
                },
            r as int % (pow2(old(self).ord()) as int) == 0,
            old(self).head() <= r,
            r + pow2(old(self).ord()) <= old(self).head() + pow2(PAGE_ORDER as nat),
    {
        proof {
            assert(exists|i: int| 0 <= i < self.bits().len() && !self.bits()[i]);
            let some = choose|i: int| 0 <= i < self.bits().len() && !self.bits()[i];
            lemma_first_clear_exists(self.bits(), some);
        }
        let ghost first = choose|i: int|
            0 <= i < self.bits().len() && !self.bits()[i]
            && (forall|j: int| 0 <= j < i ==> self.bits()[j]);
        proof {
            lemma_pow2_lt_page((PAGE_ORDER - self.ord()) as nat);
        }
        let mut idx: usize = 0;
        while self.map.get_bit(idx)
            invariant
                self.wf(),
                first < usize::MAX,
                idx <= first,
                0 <= first < self.bits().len(),
                !self.bits()[first],
                forall|j: int| 0 <= j < first ==> self.bits()[j],
            decreases first - idx,
        {
            proof {
                assert(self.bits()[idx as int]);
                assert(idx != first);
            }
            idx = idx + 1;
        }
        proof {
            assert(!self.bits()[idx as int]);
            assert(idx == first) by {
                if idx < first {
                    assert(self.bits()[idx as int]);
                }
            }
            lemma_pow2_lt_page(self.ord());
            slot_in_page(self.ord(), idx as int);
        }
        self.map.set_bit(idx);
        let slot_size = pow2_usize(self.order);
        proof {
            assert(idx as int * (slot_size as int) + slot_size as int
                <= pow2(PAGE_ORDER as nat));
        }
        let r = self.slab_head + idx * slot_size;
        proof {
            let ss = pow2(self.ord()) as int;
            assert(self.slab_head as int % ss == 0) by {
                crate::util::lemma_pow2_divides(
                    self.slab_head as int, self.ord(),
                    (PAGE_ORDER - self.ord()) as nat);
                assert(self.ord() + (PAGE_ORDER - self.ord()) as nat == PAGE_ORDER as nat);
            }
            assert((idx * slot_size) as int % ss == 0) by {
                vstd::arithmetic::div_mod::lemma_fundamental_div_mod_converse_mod(
                    idx as int * ss, ss, idx as int, 0);
            }
            crate::util::lemma_mod_add_sub(self.slab_head as int, idx as int * ss, ss);
        }
        r
    }

    /// Frees slot `idx`: clears its allocation bit.
    pub fn free(&mut self, idx: usize)
        requires
            old(self).wf(),
            idx < old(self).bits().len(),
        ensures
            final(self).wf(),
            final(self).head() == old(self).head(),
            final(self).ord() == old(self).ord(),
            final(self).bits() == old(self).bits().update(idx as int, false),
    {
        self.map.clear_bit(idx);
    }
}

/// A power of two below the page order stays below the page size.
proof fn lemma_pow2_lt_page(k: nat)
    requires
        k <= PAGE_ORDER,
    ensures
        pow2(k) <= pow2(PAGE_ORDER as nat),
        pow2(PAGE_ORDER as nat) <= usize::MAX,
        pow2(k) >= 1,
{
    lemma_pow2_pos(k);
    if k < PAGE_ORDER as nat {
        lemma_pow2_strictly_increases(k, PAGE_ORDER as nat);
    }
    vstd::arithmetic::power2::lemma2_to64();
}

/// Some clear bit exists, so a first clear bit exists.
proof fn lemma_first_clear_exists(bits: Seq<bool>, some: int)
    requires
        0 <= some < bits.len(),
        !bits[some],
    ensures
        exists|i: int|
            0 <= i < bits.len() && !bits[i] && (forall|j: int| 0 <= j < i ==> bits[j]),
    decreases some,
{
    if forall|j: int| 0 <= j < some ==> bits[j] {
        assert(0 <= some < bits.len() && !bits[some]
            && (forall|j: int| 0 <= j < some ==> bits[j]));
    } else {
        let e = choose|j: int| 0 <= j < some && !bits[j];
        lemma_first_clear_exists(bits, e);
    }
}

/// A slot stays within its page-sized slab.
proof fn slot_in_page(ord: nat, i: int)
    requires
        ord < PAGE_ORDER,
        0 <= i < pow2((PAGE_ORDER - ord) as nat),
    ensures
        0 <= i * pow2(ord),
        i * pow2(ord) + pow2(ord) <= pow2(PAGE_ORDER as nat),
{
    let s = pow2(ord) as int;
    let n = pow2((PAGE_ORDER - ord) as nat) as int;
    lemma_pow2_pos(ord);
    lemma_pow2_pos((PAGE_ORDER - ord) as nat);
    lemma_pow2_adds(ord, (PAGE_ORDER - ord) as nat);
    assert(i * s >= 0) by (nonlinear_arith)
        requires i >= 0, s > 0;
    assert(i * s + s <= n * s) by (nonlinear_arith)
        requires i < n, s > 0;
    assert(n * s == pow2(PAGE_ORDER as nat)) by {
        assert(ord + (PAGE_ORDER - ord) as nat == PAGE_ORDER as nat);
    }
}

/// Removing an element from a duplicate-free list, membership-wise.
proof fn list_remove_facts(pre: Seq<usize>, post: Seq<usize>, item: usize)
    requires
        distinct(pre),
        mem(pre, item as int),
        exists|i: int| 0 <= i < pre.len() && pre[i] == item && post == pre.remove(i),
    ensures
        distinct(post),
        forall|x: int| mem(post, x) <==> (mem(pre, x) && x != item),
{
    let i = choose|i: int| 0 <= i < pre.len() && pre[i] == item && post == pre.remove(i);
    assert forall|x: int| mem(post, x) <==> (mem(pre, x) && x != item) by {
        lemma_remove_mem(pre, i, x);
    }
    lemma_remove_mem(pre, i, 0);
}

/// Pushing a new element onto a duplicate-free list, membership-wise.
proof fn list_push_facts(pre: Seq<usize>, post: Seq<usize>, item: usize)
    requires
        distinct(pre),
        !mem(pre, item as int),
        post == pre.push(item),
    ensures
        distinct(post),
        forall|x: int| mem(post, x) <==> (mem(pre, x) || x == item),
{
    assert forall|x: int| mem(post, x) <==> (mem(pre, x) || x == item) by {
        lemma_push_mem(pre, item, x);
    }
    lemma_push_mem(pre, item, 0);
}

/// A single power-of-two size class: its slabs, kept on three lists
/// according to how many of their slots are taken.
pub struct AllocBin {
    order: usize,
    free: LinkedList,
    partial: LinkedList,
    full: LinkedList,
    slabs: Vec<SlabInfo>,
}

impl AllocBin {
    /// The bin's slot order.
    pub closed spec fn ord(&self) -> nat {
        self.order as nat
    }

    /// The bookkeeping of every slab this bin owns.
    pub closed spec fn slabs_(&self) -> Seq<SlabInfo> {
        self.slabs@
    }

    /// The heads on the all-slots-free list.
    pub closed spec fn free_(&self) -> Seq<usize> {
        self.free@
    }

    /// The heads on the mixed list.
    pub closed spec fn partial_(&self) -> Seq<usize> {
        self.partial@
    }

    /// The heads on the all-slots-taken list.
    pub closed spec fn full_(&self) -> Seq<usize> {
        self.full@
    }

    /// Whether some slab of this bin starts at `a`.
    pub open spec fn has_slab(&self, a: int) -> bool {
        exists|s: int| 0 <= s < self.slabs_().len() && (#[trigger] self.slabs_()[s]).head() == a
    }

    /// Which list slab `s` belongs on, by its bitmap's population.
    pub open spec fn on_right_list(&self, s: int) -> bool {
        let sl = self.slabs_()[s];
        &&& mem(self.free_(), sl.head()) <==> sl.all_clear()
        &&& mem(self.partial_(), sl.head()) <==> (!sl.all_clear() && !sl.all_set())
        &&& mem(self.full_(), sl.head()) <==> sl.all_set()
    }

    /// Every slab of this bin is an outstanding page of the buddy
    /// allocator.
    pub open spec fn slabs_tracked(&self, pa: &BuddyBlockAllocator) -> bool {
        forall|s: int| 0 <= s < self.slabs_().len()
            ==> pa.allocated_().dom().contains((#[trigger] self.slabs_()[s]).head())
                && pa.allocated_()[self.slabs_()[s].head()] == 0
    }

    /// The bin's invariant: slabs are well formed for this order, have
    /// distinct heads, and each sits on exactly the list matching its
    /// bitmap's population; the lists hold nothing but slab heads.
    pub closed spec fn inv(&self) -> bool {
        &&& SLAB_MIN_ORDER <= self.ord() <= SLAB_MAX_ORDER
        &&& forall|s: int| 0 <= s < self.slabs_().len()
            ==> (#[trigger] self.slabs_()[s]).wf() && self.slabs_()[s].ord() == self.ord()
        &&& forall|s1: int, s2: int| 0 <= s1 < s2 < self.slabs_().len()
            ==> (#[trigger] self.slabs_()[s1]).head() != (#[trigger] self.slabs_()[s2]).head()
        &&& forall|s: int| 0 <= s < self.slabs_().len() ==> #[trigger] self.on_right_list(s)
        &&& forall|x: int| #[trigger] mem(self.free_(), x) ==> self.has_slab(x)
        &&& forall|x: int| #[trigger] mem(self.partial_(), x) ==> self.has_slab(x)
        &&& forall|x: int| #[trigger] mem(self.full_(), x) ==> self.has_slab(x)
        &&& distinct(self.free_())
        &&& distinct(self.partial_())
        &&& distinct(self.full_())
    }

    /// Every slab sits on exactly one of the bin's three lists, the one
    /// matching its bitmap's population.
    pub proof fn lemma_slab_lists_partition(&self, s: int)
        requires
            self.inv(),
            0 <= s < self.slabs_().len(),
        ensures
            self.on_right_list(s),
            mem(self.free_(), self.slabs_()[s].head())
                || mem(self.partial_(), self.slabs_()[s].head())
                || mem(self.full_(), self.slabs_()[s].head()),
            !(mem(self.free_(), self.slabs_()[s].head())
                && mem(self.partial_(), self.slabs_()[s].head())),
            !(mem(self.free_(), self.slabs_()[s].head())
                && mem(self.full_(), self.slabs_()[s].head())),
            !(mem(self.partial_(), self.slabs_()[s].head())
                && mem(self.full_(), self.slabs_()[s].head())),
    {
        assert(self.on_right_list(s));
        let sl = self.slabs_()[s];
        assert(sl.wf());
        lemma_pow2_pos((PAGE_ORDER - sl.ord()) as nat);
        assert(sl.bits().len() > 0);
        assert(sl.all_set() ==> sl.bits()[0]);
        assert(sl.all_clear() ==> !sl.bits()[0]);
    }

    /// A new, empty bin for slot order `order`.
    pub fn new(order: usize) -> (r: AllocBin)
        requires
            SLAB_MIN_ORDER <= order <= SLAB_MAX_ORDER,
        ensures
            r.inv(),
            r.ord() == order,
            r.slabs_().len() == 0,
            r.free_().len() == 0,
            r.partial_().len() == 0,
            r.full_().len() == 0,
    {
        AllocBin {
            order,
            free: LinkedList::new(),
            partial: LinkedList::new(),
            full: LinkedList::new(),
            slabs: Vec::new(),
        }
    }

    /// The index of the slab whose head is `h`.
    fn find_slab(&self, h: usize) -> (r: usize)
        requires
            self.inv(),
            self.has_slab(h as int),
        ensures
            r < self.slabs_().len(),
            self.slabs_()[r as int].head() == h,
    {
        let mut s: usize = 0;
        let n = self.slabs.len();
        proof {
            let w = choose|w: int| 0 <= w < self.slabs_().len()
                && (#[trigger] self.slabs_()[w]).head() == h;
        }
        loop
            invariant
                s < n,
                n == self.slabs_().len(),
                self.inv(),
                exists|w: int| s <= w < self.slabs_().len()
                    && (#[trigger] self.slabs_()[w]).head() == h,
            ensures
                s < self.slabs_().len(),
                self.slabs_()[s as int].head() == h,
            decreases n - s,
        {
            if self.slabs[s].head_addr() == h {
                break;
            }
            proof {
                let w = choose|w: int| s <= w < self.slabs_().len()
                    && (#[trigger] self.slabs_()[w]).head() == h;
                assert(w > s);
            }
            s = s + 1;
        }
        s
    }

    /// Allocates one slot of `pow2(ord())` bytes. A slab from the partial
    /// list is preferred, then one from the free list; only when both are
    /// empty is a fresh slab drawn from the buddy allocator.
    pub fn allocate(&mut self, page_alloc: &mut BuddyBlockAllocator) -> (r: Result<
        usize,
        AllocErr,
    >)
        requires
            old(self).inv(),
            old(page_alloc).inv(),
            old(page_alloc).po() == PAGE_ORDER,
            old(page_alloc).mo() == MAX_BLOCK_ORDER,
            old(page_alloc).lo_addr() % (pow2(PAGE_ORDER as nat) as int) == 0,
            old(self).slabs_tracked(old(page_alloc)),
        ensures
            final(self).inv(),
            final(self).ord() == old(self).ord(),
            final(page_alloc).inv(),
            final(page_alloc).same_geom(old(page_alloc)),
            final(self).slabs_tracked(final(page_alloc)),
            forall|h: int| #[trigger] old(page_alloc).allocated_().dom().contains(h)
                ==> final(page_alloc).allocated_().dom().contains(h)
                    && final(page_alloc).allocated_()[h] == old(page_alloc).allocated_()[h],
            old(self).partial_().len() > 0 || old(self).free_().len() > 0
                ==> *final(page_alloc) == *old(page_alloc)
                    && final(self).slabs_().len() == old(self).slabs_().len(),
            match r {
                Ok(a) => {
                    &&& a as int % (pow2(old(self).ord()) as int) == 0
                    &&& exists|si: int, i: int|
                        #[trigger] fresh_slot(
                            old(self).slabs_(), final(self).slabs_(), si, i,
                            a as int, old(self).ord())
                },
                Err(_) => {
                    &&& old(self).partial_().len() == 0
                    &&& old(self).free_().len() == 0
                    &&& forall|k: int, x: int| 0 <= k <= old(page_alloc).mo()
                        ==> !old(page_alloc).zone_has(k, x)
                    &&& final(page_alloc).free_bytes() == old(page_alloc).free_bytes()
                    &&& final(page_alloc).allocated_() == old(page_alloc).allocated_()
                    &&& final(self).slabs_() == old(self).slabs_()
                },
            },
    {
        let ghost pre = *self;
        // pick a slab: partial first, then free, else a fresh one
        let picked = match self.partial.peek() {
            Some(h) => Some((h, false)),
            None => match self.free.peek() {
                Some(h) => Some((h, true)),
                None => None,
            },
        };
        match picked {
            Some((h, was_empty)) => {
                proof {
                    if was_empty {
                        assert(mem(pre.free_(), h as int));
                    } else {
                        assert(mem(pre.partial_(), h as int));
                    }
                }
                let s = self.find_slab(h);
                let mut sl = self.slabs.remove(s);
                proof {
                    assert(pre.on_right_list(s as int));
                    if sl.all_set() {
                        pre.lemma_slab_lists_partition(s as int);
                        assert(false);
                    }
                }
                let addr = sl.allocate();
                let now_full = sl.is_full();
                self.slabs.insert(s, sl);
                proof {
                    crate::buddy::lemma_remove_insert(pre.slabs_(), s as int, sl);
                    assert(self.slabs@ =~= pre.slabs_().update(s as int, sl));
                }
                proof {
                    pre.lemma_slab_lists_partition(s as int);
                    lemma_two_slots(sl);
                    // the touched slot makes the slab neither all clear
                    assert(!sl.all_clear()) by {
                        let i = choose|i: int|
                            0 <= i < pre.slabs_()[s as int].bits().len()
                            && !pre.slabs_()[s as int].bits()[i]
                            && (forall|j: int| 0 <= j < i
                                ==> pre.slabs_()[s as int].bits()[j])
                            && sl.bits() == pre.slabs_()[s as int].bits().update(i, true)
                            && addr == pre.slabs_()[s as int].head()
                                + i * pow2(pre.slabs_()[s as int].ord());
                        assert(sl.bits()[i]);
                    }
                }
                if was_empty {
                    proof {
                        // freshly taken from an all-clear slab: one slot
                        // set, at least one still clear
                        let prev = pre.slabs_()[s as int];
                        assert(prev.all_clear());
                        assert(!sl.all_set()) by {
                            let i = choose|i: int| 0 <= i < prev.bits().len()
                                && !prev.bits()[i]
                                && (forall|j: int| 0 <= j < i ==> prev.bits()[j])
                                && sl.bits() == prev.bits().update(i, true)
                                && addr == prev.head() + i * pow2(prev.ord());
                            let j: int = if i == 0 { 1 } else { 0 };
                            assert(!prev.bits()[j]);
                            assert(!sl.bits()[j]);
                        }
                        assert(!mem(pre.partial_(), h as int));
                    }
                    self.free.remove(h);
                    self.partial.push(h);
                    proof {
                        list_remove_facts(pre.free_(), self.free_(), h);
                        list_push_facts(pre.partial_(), self.partial_(), h);
                        self.finish_lists_proof(pre, s as int, sl, h);
                    }
                } else if now_full {
                    proof {
                        assert(!mem(pre.full_(), h as int));
                    }
                    self.partial.remove(h);
                    self.full.push(h);
                    proof {
                        list_remove_facts(pre.partial_(), self.partial_(), h);
                        list_push_facts(pre.full_(), self.full_(), h);
                        self.finish_lists_proof(pre, s as int, sl, h);
                    }
                } else {
                    proof {
                        self.finish_lists_proof(pre, s as int, sl, h);
                    }
                }
                proof {
                    assert forall|s2: int| 0 <= s2 < self.slabs_().len()
                        implies page_alloc.allocated_().dom().contains(
                            (#[trigger] self.slabs_()[s2]).head())
                            && page_alloc.allocated_()[self.slabs_()[s2].head()] == 0 by {
                        assert(pre.slabs_()[s2].head() == self.slabs_()[s2].head());
                        assert(pre.slabs_tracked(page_alloc));
                    }
                    // the handed-out slot, as a witness
                    let prev = pre.slabs_()[s as int];
                    assert(prev.ord() == pre.ord());
                    let i = choose|i: int|
                        {
                            &&& 0 <= i < prev.bits().len()
                            &&& !prev.bits()[i]
                            &&& (forall|j: int| 0 <= j < i ==> prev.bits()[j])
                            &&& sl.bits() == prev.bits().update(i, true)
                            &&& addr == prev.head() + i * pow2(prev.ord())
                        };
                    assert(fresh_slot(pre.slabs_(), self.slabs_(), s as int, i,
                        addr as int, pre.ord()));
                }
                Ok(addr)
            },
            None => {
                // both reserves are empty: draw a fresh slab
                match page_alloc.allocate(0) {
                    Ok(head) => {
                        proof {
                            lemma_pow2_pos(PAGE_ORDER as nat);
                            crate::util::lemma_mod_add_sub(
                                head - old(page_alloc).lo_addr(),
                                old(page_alloc).lo_addr(),
                                pow2(PAGE_ORDER as nat) as int);
                            assert(head as int % (pow2(PAGE_ORDER as nat) as int) == 0);
                        }
                        let mut sl = SlabInfo::new(head, self.order);
                        proof {
                            lemma_two_slots(sl);
                            assert(!sl.all_set()) by {
                                assert(!sl.bits()[0]);
                            }
                        }
                        let ghost sl0 = sl;
                        let addr = sl.allocate();
                        proof {
                            lemma_two_slots(sl);
                            let i = choose|i: int|
                                {
                                    &&& 0 <= i < sl0.bits().len()
                                    &&& !sl0.bits()[i]
                                    &&& (forall|j: int| 0 <= j < i ==> sl0.bits()[j])
                                    &&& sl.bits() == sl0.bits().update(i, true)
                                    &&& addr == sl0.head() + i * pow2(sl0.ord())
                                };
                            assert(sl.bits()[i]);
                            assert(!sl.all_clear());
                            let j: int = if i == 0 { 1 } else { 0 };
                            assert(!sl0.bits()[j]);
                            assert(!sl.bits()[j]);
                            assert(!sl.all_set());
                            // a fresh page overlaps no existing slab: the
                            // buddy allocator hands out blocks disjoint
                            // from every outstanding allocation
                            lemma_pow2_pos(PAGE_ORDER as nat);
                            assert(!pre.has_slab(sl.head())) by {
                                if pre.has_slab(sl.head()) {
                                    let w = choose|w: int| 0 <= w < pre.slabs_().len()
                                        && (#[trigger] pre.slabs_()[w]).head() == sl.head();
                                    assert(old(page_alloc).allocated_().dom().contains(
                                        pre.slabs_()[w].head()));
                                    assert(false);
                                }
                            }
                            assert(!mem(pre.free_(), sl.head() as int)) by {
                                if mem(pre.free_(), sl.head() as int) {
                                    assert(pre.has_slab(sl.head()));
                                }
                            }
                            assert(!mem(pre.partial_(), sl.head() as int)) by {
                                if mem(pre.partial_(), sl.head() as int) {
                                    assert(pre.has_slab(sl.head()));
                                }
                            }
                            assert(!mem(pre.full_(), sl.head() as int)) by {
                                if mem(pre.full_(), sl.head() as int) {
                                    assert(pre.has_slab(sl.head()));
                                }
                            }
                        }
                        self.slabs.push(sl);
                        self.partial.push(head);
                        proof {
                            self.reestablish_after_new_slab(pre, sl);
                            let i = choose|i: int|
                                {
                                    &&& 0 <= i < sl0.bits().len()
                                    &&& !sl0.bits()[i]
                                    &&& (forall|j: int| 0 <= j < i ==> sl0.bits()[j])
                                    &&& sl.bits() == sl0.bits().update(i, true)
                                    &&& addr == sl0.head() + i * pow2(sl0.ord())
                                };
                            assert(fresh_slot(pre.slabs_(), self.slabs_(),
                                pre.slabs_().len() as int, i, addr as int, pre.ord()));
                            assert forall|s2: int| 0 <= s2 < self.slabs_().len()
                                implies page_alloc.allocated_().dom().contains(
                                    (#[trigger] self.slabs_()[s2]).head())
                                    && page_alloc.allocated_()[
                                        self.slabs_()[s2].head()] == 0 by {
                                if s2 < pre.slabs_().len() {
                                    assert(pre.slabs_tracked(old(page_alloc)));
                                    assert(old(page_alloc).allocated_().dom().contains(
                                        pre.slabs_()[s2].head()));
                                    assert(self.slabs_()[s2].head() != head as int);
                                } else {
                                    assert(self.slabs_()[s2] == sl);
                                }
                            }
                        }
                        Ok(addr)
                    },
                    Err(e) => Err(e),
                }
            },
        }
    }

    /// Frees the slot holding `ptr`: clears its bit in the owning slab and
    /// moves the slab between the lists as its population changes.
    pub fn free(&mut self, ptr: usize, page_alloc: &BuddyBlockAllocator)
        requires
            old(self).inv(),
            page_alloc.inv(),
            page_alloc.po() == PAGE_ORDER,
            page_alloc.lo_addr() <= ptr,
            old(self).valid_free(ptr as int, page_alloc.lo_addr()),
        ensures
            final(self).inv(),
            final(self).ord() == old(self).ord(),
            final(self).slabs_().len() == old(self).slabs_().len(),
            forall|s: int| 0 <= s < final(self).slabs_().len()
                ==> (#[trigger] final(self).slabs_()[s]).head()
                    == old(self).slabs_()[s].head(),
            exists|si: int| #[trigger] freed_slot(
                old(self).slabs_(), final(self).slabs_(), si, ptr as int,
                page_alloc.lo_addr(), old(self).ord()),
    {
        let ghost pre = *self;
        let slab_head = page_alloc.floor_alloc(ptr, 0);
        proof {
            lemma_pow2_pos(PAGE_ORDER as nat);
            lemma_pow2_pos(self.ord());
            let p = pow2(PAGE_ORDER as nat) as int;
            let lo = page_alloc.lo_addr();
            let sf = spec_floor(ptr as int, lo);
            crate::util::lemma_div_mul_le(ptr - lo, p);
            vstd::arithmetic::div_mod::lemma_fundamental_div_mod_converse_mod(
                sf - lo, p, (ptr - lo) / p, 0);
            assert(sf - lo <= ptr - lo);
            assert(ptr - lo < sf - lo + p);
            assert(lo <= slab_head <= ptr);
            assert(ptr - slab_head < p);
            assert((slab_head - lo) % p == 0);
            if sf <= slab_head {
                crate::util::lemma_multiple_unique(
                    sf - lo, slab_head - lo, p);
            } else {
                crate::util::lemma_multiple_unique(
                    slab_head - lo, sf - lo, p);
            }
            assert(slab_head == sf);
            let s0 = choose|s: int| free_witness(pre, s, ptr as int, lo);
            assert(free_witness(pre, s0, ptr as int, lo));
            assert(pre.slabs_()[s0].head() == sf);
            assert(self.slabs_()[s0].head() == slab_head as int);
            assert(self.has_slab(slab_head as int));
        }
        let s = self.find_slab(slab_head);
        proof {
            lemma_pow2_lt_page(self.ord());
        }
        let slot_size = pow2_usize(self.order);
        let idx = (ptr - slab_head) / slot_size;
        let mut sl = self.slabs.remove(s);
        proof {
            let lo = page_alloc.lo_addr();
            let s0 = choose|s: int| free_witness(pre, s, ptr as int, lo);
            assert(free_witness(pre, s0, ptr as int, lo));
            assert(pre.slabs_()[s as int].head() == pre.slabs_()[s0].head());
            if (s as int) != s0 {
                if (s as int) < s0 {
                    assert(pre.slabs_()[s as int].head() != pre.slabs_()[s0].head());
                } else {
                    assert(pre.slabs_()[s0].head() != pre.slabs_()[s as int].head());
                }
            }
            assert(pre.slabs_()[s as int].bits()[idx as int]);
            assert(pre.on_right_list(s as int));
        }
        let was_full = sl.is_full();
        proof {
            if sl.all_clear() {
                assert(sl.bits()[idx as int]);
                assert(false);
            }
        }
        sl.free(idx);
        let now_empty = sl.is_empty();
        self.slabs.insert(s, sl);
        proof {
            crate::buddy::lemma_remove_insert(pre.slabs_(), s as int, sl);
            assert(self.slabs@ =~= pre.slabs_().update(s as int, sl));
            // the cleared slot, as a witness
            assert((idx as int)
                == (ptr - pre.slabs_()[s as int].head()) / (pow2(pre.ord()) as int));
            assert(freed_slot(pre.slabs_(), self.slabs_(), s as int, ptr as int,
                page_alloc.lo_addr(), pre.ord()));
        }
        proof {
            pre.lemma_slab_lists_partition(s as int);
            lemma_two_slots(sl);
            assert(!sl.all_set()) by {
                assert(!sl.bits()[idx as int]);
            }
        }
        if was_full {
            proof {
                let prev = pre.slabs_()[s as int];
                assert(!sl.all_clear()) by {
                    let j: int = if idx == 0 { 1 } else { 0 };
                    assert(prev.bits()[j]);
                    assert(sl.bits()[j]);
                }
                assert(!mem(pre.partial_(), slab_head as int));
            }
            self.full.remove(slab_head);
            self.partial.push(slab_head);
            proof {
                list_remove_facts(pre.full_(), self.full_(), slab_head);
                list_push_facts(pre.partial_(), self.partial_(), slab_head);
                self.finish_lists_proof(pre, s as int, sl, slab_head);
            }
        } else if now_empty {
            proof {
                assert(mem(pre.partial_(), slab_head as int)) by {
                    let prev = pre.slabs_()[s as int];
                    assert(!prev.all_clear()) by {
                        assert(prev.bits()[idx as int]);
                    }
                }
                assert(!mem(pre.free_(), slab_head as int));
            }
            self.partial.remove(slab_head);
            self.free.push(slab_head);
            proof {
                list_remove_facts(pre.partial_(), self.partial_(), slab_head);
                list_push_facts(pre.free_(), self.free_(), slab_head);
                self.finish_lists_proof(pre, s as int, sl, slab_head);
            }
        } else {
            proof {
                assert(mem(pre.partial_(), slab_head as int)) by {
                    let prev = pre.slabs_()[s as int];
                    assert(!prev.all_clear()) by {
                        assert(prev.bits()[idx as int]);
                    }
                }
                self.finish_lists_proof(pre, s as int, sl, slab_head);
            }
        }
    }

    /// Whether `ptr` lies in an allocated slot of one of this bin's slabs:
    /// the slab containing `ptr`'s page has the covering slot's bit set.
    pub open spec fn valid_free(&self, ptr: int, region_lo: int) -> bool {
        exists|s: int| #[trigger] free_witness(*self, s, ptr, region_lo)
    }

    /// The lists now place the updated slab by its population, and every
    /// other head kept its place: the invariant holds again.
    proof fn finish_lists_proof(&self, pre: Self, s: int, sl: SlabInfo, h: usize)
        requires
            pre.inv(),
            0 <= s < pre.slabs_().len(),
            sl.wf(),
            sl.ord() == pre.ord(),
            h == sl.head(),
            sl.head() == pre.slabs_()[s].head(),
            self.order == pre.order,
            self.slabs_() == pre.slabs_().update(s, sl),
            membership_moved(pre.free_(), self.free_(), h, sl.all_clear()),
            membership_moved(pre.partial_(), self.partial_(), h,
                !sl.all_clear() && !sl.all_set()),
            membership_moved(pre.full_(), self.full_(), h, sl.all_set()),
        ensures
            self.inv(),
    {
        self.reestablish_after_slot_change(pre, s, sl);
    }

    /// One slab's bitmap changed at one slot, and the lists were updated
    /// to match its new population: the invariant holds again.
    proof fn reestablish_after_slot_change(&self, pre: Self, s: int, sl: SlabInfo)
        requires
            pre.inv(),
            0 <= s < pre.slabs_().len(),
            sl.wf(),
            sl.ord() == pre.ord(),
            sl.head() == pre.slabs_()[s].head(),
            self.order == pre.order,
            self.slabs_() == pre.slabs_().update(s, sl),
            membership_moved(pre.free_(), self.free_(), sl.head() as usize, sl.all_clear()),
            membership_moved(pre.partial_(), self.partial_(), sl.head() as usize,
                !sl.all_clear() && !sl.all_set()),
            membership_moved(pre.full_(), self.full_(), sl.head() as usize, sl.all_set()),
        ensures
            self.inv(),
    {
        let h = sl.head();
        let old_sl = pre.slabs_()[s];
        pre.lemma_slab_lists_partition(s);
        assert forall|s2: int| 0 <= s2 < self.slabs_().len()
            implies #[trigger] self.on_right_list(s2) by {
            if s2 != s {
                assert(pre.on_right_list(s2));
                assert(pre.slabs_()[s2].head() != h);
            }
        }
        assert forall|x: int| #[trigger] mem(self.free_(), x)
            implies self.has_slab(x) by {
            if x != h {
                assert(mem(pre.free_(), x));
                let w = choose|w: int| 0 <= w < pre.slabs_().len()
                    && (#[trigger] pre.slabs_()[w]).head() == x;
                assert(self.slabs_()[w].head() == x);
            } else {
                assert(self.slabs_()[s].head() == h);
            }
        }
        assert forall|x: int| #[trigger] mem(self.partial_(), x)
            implies self.has_slab(x) by {
            if x != h {
                assert(mem(pre.partial_(), x));
                let w = choose|w: int| 0 <= w < pre.slabs_().len()
                    && (#[trigger] pre.slabs_()[w]).head() == x;
                assert(self.slabs_()[w].head() == x);
            } else {
                assert(self.slabs_()[s].head() == h);
            }
        }
        assert forall|x: int| #[trigger] mem(self.full_(), x)
            implies self.has_slab(x) by {
            if x != h {
                assert(mem(pre.full_(), x));
                let w = choose|w: int| 0 <= w < pre.slabs_().len()
                    && (#[trigger] pre.slabs_()[w]).head() == x;
                assert(self.slabs_()[w].head() == x);
            } else {
                assert(self.slabs_()[s].head() == h);
            }
        }
    }

    /// A fresh, one-slot-taken slab was appended and its head pushed onto
    /// the partial list: the invariant holds again.
    proof fn reestablish_after_new_slab(&self, pre: Self, sl: SlabInfo)
        requires
            pre.inv(),
            sl.wf(),
            sl.ord() == pre.ord(),
            !sl.all_clear(),
            !sl.all_set(),
            !pre.has_slab(sl.head()),
            !mem(pre.free_(), sl.head()),
            !mem(pre.partial_(), sl.head()),
            !mem(pre.full_(), sl.head()),
            self.order == pre.order,
            self.slabs_() == pre.slabs_().push(sl),
            self.free_() == pre.free_(),
            self.full_() == pre.full_(),
            self.partial_() == pre.partial_().push(sl.head() as usize),
        ensures
            self.inv(),
    {
        let h = sl.head();
        list_push_facts(pre.partial_(), self.partial_(), h as usize);
        assert forall|s2: int| 0 <= s2 < self.slabs_().len()
            implies #[trigger] self.on_right_list(s2) by {
            if s2 < pre.slabs_().len() {
                assert(pre.on_right_list(s2));
                assert(pre.slabs_()[s2].head() != h);
            } else {
                assert(self.slabs_()[s2] == sl);
            }
        }
        assert forall|x: int| #[trigger] mem(self.free_(), x)
            implies self.has_slab(x) by {
            assert(mem(pre.free_(), x));
            let w = choose|w: int| 0 <= w < pre.slabs_().len()
                && (#[trigger] pre.slabs_()[w]).head() == x;
            assert(self.slabs_()[w].head() == x);
        }
        assert forall|x: int| #[trigger] mem(self.partial_(), x)
            implies self.has_slab(x) by {
            if x != h {
                assert(mem(pre.partial_(), x));
                let w = choose|w: int| 0 <= w < pre.slabs_().len()
                    && (#[trigger] pre.slabs_()[w]).head() == x;
                assert(self.slabs_()[w].head() == x);
            } else {
                assert(self.slabs_()[pre.slabs_().len() as int].head() == h);
            }
        }
        assert forall|x: int| #[trigger] mem(self.full_(), x)
            implies self.has_slab(x) by {
            assert(mem(pre.full_(), x));
            let w = choose|w: int| 0 <= w < pre.slabs_().len()
                && (#[trigger] pre.slabs_()[w]).head() == x;
            assert(self.slabs_()[w].head() == x);
        }
    }
}

/// Whether the slab at `si` is the one the free touched: the bit of
/// the slot covering `ptr` is cleared and everything else is untouched.
pub open spec fn freed_slot(
    pre: Seq<SlabInfo>,
    post: Seq<SlabInfo>,
    si: int,
    ptr: int,
    region_lo: int,
    ord: nat,
) -> bool {
    &&& 0 <= si < pre.len()
    &&& post.len() == pre.len()
    &&& pre[si].head() == spec_floor(ptr, region_lo)
    &&& post[si].head() == pre[si].head()
    &&& post[si].bits() == pre[si].bits().update(
        (ptr - pre[si].head()) / (pow2(ord) as int), false)
    &&& forall|s2: int| 0 <= s2 < pre.len() && s2 != si ==> post[s2] == pre[s2]
}

/// Whether slot `i` of slab `si` is the one the allocation took: its
/// bit is freshly set, the address is the slot's, and every other slab
/// and slot is untouched. The slab either already existed or was just
/// appended with only this slot taken.
pub open spec fn fresh_slot(
    pre: Seq<SlabInfo>,
    post: Seq<SlabInfo>,
    si: int,
    i: int,
    a: int,
    ord: nat,
) -> bool {
    &&& 0 <= si < post.len()
    &&& 0 <= i < post[si].bits().len()
    &&& post[si].bits()[i]
    &&& post[si].ord() == ord
    &&& a == post[si].head() + i * pow2(ord)
    &&& if si < pre.len() {
        &&& post.len() == pre.len()
        &&& !pre[si].bits()[i]
        &&& post[si].head() == pre[si].head()
        &&& post[si].bits() == pre[si].bits().update(i, true)
        &&& forall|s2: int| 0 <= s2 < pre.len() && s2 != si ==> post[s2] == pre[s2]
    } else {
        &&& si == pre.len()
        &&& post.len() == pre.len() + 1
        &&& (forall|i2: int| 0 <= i2 < post[si].bits().len() && i2 != i
            ==> !post[si].bits()[i2])
        &&& forall|s2: int| 0 <= s2 < pre.len() ==> post[s2] == pre[s2]
    }
}

/// The witness predicate of [`AllocBin::valid_free`].
pub open spec fn free_witness(bin: AllocBin, s: int, ptr: int, region_lo: int) -> bool {
    &&& 0 <= s < bin.slabs_().len()
    &&& bin.slabs_()[s].head() == spec_floor(ptr, region_lo)
    &&& {
        let idx = (ptr - bin.slabs_()[s].head()) / (pow2(bin.ord()) as int);
        0 <= idx < bin.slabs_()[s].bits().len() && bin.slabs_()[s].bits()[idx]
    }
}

/// The page boundary at or below `ptr`, within a region based at
/// `region_lo`.
pub open spec fn spec_floor(ptr: int, region_lo: int) -> int {
    region_lo + ((ptr - region_lo) / (pow2(PAGE_ORDER as nat) as int))
        * (pow2(PAGE_ORDER as nat) as int)
}

/// The list keeps its members except that `h`'s presence now equals
/// `belongs`.
pub open spec fn membership_moved(
    pre: Seq<usize>,
    post: Seq<usize>,
    h: usize,
    belongs: bool,
) -> bool {
    &&& distinct(post)
    &&& forall|x: int| #[trigger] mem(post, x)
        <==> if x == h { belongs } else { mem(pre, x) }
}

/// A slab of a bin order below the page order has at least two slots.
proof fn lemma_two_slots(sl: SlabInfo)
    requires
        sl.wf(),
    ensures
        sl.bits().len() >= 2,
{
    lemma_pow2_pos((PAGE_ORDER - sl.ord()) as nat);
    if (PAGE_ORDER - sl.ord()) as nat >= 1 {
        vstd::arithmetic::power2::lemma2_to64();
        if (PAGE_ORDER - sl.ord()) as nat > 1 {
            lemma_pow2_strictly_increases(1, (PAGE_ORDER - sl.ord()) as nat);
        }
    }
}

/// Whether `k` is the order the allocator routes a buddy request of
/// `sz` bytes to: the smallest order whose block holds `sz`, capped at
/// the largest block order.
pub open spec fn is_block_order(sz: int, k: int) -> bool {
    &&& 0 <= k <= MAX_BLOCK_ORDER
    &&& (pow2((PAGE_ORDER + k) as nat) >= sz || k == MAX_BLOCK_ORDER)
    &&& forall|j: int| 0 <= j < k ==> #[trigger] pow2((PAGE_ORDER + j) as nat) < sz
}

/// Whether `b` indexes the bin a slab request of `sz` bytes routes to:
/// the smallest bin whose slot holds `sz`.
pub open spec fn is_bin_index(sz: int, b: int) -> bool {
    &&& 0 <= b <= SLAB_MAX_ORDER - SLAB_MIN_ORDER
    &&& pow2((SLAB_MIN_ORDER + b) as nat) >= sz
    &&& forall|j: int| 0 <= j < b ==> #[trigger] pow2((SLAB_MIN_ORDER + j) as nat) < sz
}

/// The size class a request is served from: the larger of its size and
/// its alignment.
pub open spec fn spec_alloc_size(size: int, align: int) -> int {
    if size > align { size } else { align }
}

/// What a successful allocation gives, per the routing rule: the larger
/// of size and alignment picks the class; a request beyond the largest
/// slab slot is a buddy block of the smallest fitting order, anything
/// else a freshly taken slot of the smallest fitting bin.
pub open spec fn alloc_ok_shape(
    pre: Allocator,
    post: Allocator,
    size: int,
    align: int,
    a: int,
) -> bool {
    let sz = spec_alloc_size(size, align);
    if sz > pow2(SLAB_MAX_ORDER as nat) {
        exists|k: int|
            {
                &&& #[trigger] is_block_order(sz, k)
                &&& pow2((PAGE_ORDER + k) as nat) >= sz
                &&& pre.inner_().lo_addr() <= a
                &&& a + pow2((PAGE_ORDER + k) as nat) <= pre.inner_().hi_addr()
                &&& (a - pre.inner_().lo_addr())
                    % (pow2((PAGE_ORDER + k) as nat) as int) == 0
                &&& post.inner_().free_bytes()
                    == pre.inner_().free_bytes() - pow2((PAGE_ORDER + k) as nat)
            }
    } else {
        exists|b: int, si: int, i: int|
            {
                &&& is_bin_index(sz, b)
                &&& pow2((SLAB_MIN_ORDER + b) as nat) >= sz
                &&& #[trigger] fresh_slot(
                    pre.bins_()[b].slabs_(), post.bins_()[b].slabs_(), si, i, a,
                    (SLAB_MIN_ORDER + b) as nat)
            }
    }
}

/// Why an allocation can fail: the request exceeds the largest block, or
/// the class it routes to is exhausted down to an empty buddy allocator.
pub open spec fn alloc_exhausted(pre: Allocator, size: int, align: int) -> bool {
    let sz = spec_alloc_size(size, align);
    ||| sz > pow2((PAGE_ORDER + MAX_BLOCK_ORDER) as nat)
    ||| (sz > pow2(SLAB_MAX_ORDER as nat) && exists|k: int|
        #[trigger] is_block_order(sz, k)
            && (forall|k2: int, x: int| k <= k2 <= pre.inner_().mo()
                ==> !pre.inner_().zone_has(k2, x)))
    ||| (sz <= pow2(SLAB_MAX_ORDER as nat) && exists|b: int|
        #[trigger] is_bin_index(sz, b)
            && pre.bins_()[b].partial_().len() == 0
            && pre.bins_()[b].free_().len() == 0
            && (forall|k2: int, x: int| 0 <= k2 <= pre.inner_().mo()
                ==> !pre.inner_().zone_has(k2, x)))
}

/// What a deallocation gives back, per the same routing rule: a large
/// block returns its bytes to the buddy allocator, a small one clears
/// its slot bit in the owning slab of the routed bin.
pub open spec fn dealloc_shape(
    pre: Allocator,
    post: Allocator,
    ptr: int,
    size: int,
    align: int,
) -> bool {
    let sz = spec_alloc_size(size, align);
    &&& (sz > pow2(SLAB_MAX_ORDER as nat) ==> exists|k: int|
        #[trigger] is_block_order(sz, k)
            && post.inner_().free_bytes()
                == pre.inner_().free_bytes() + pow2((PAGE_ORDER + k) as nat))
    &&& (sz <= pow2(SLAB_MAX_ORDER as nat) ==> exists|b: int, si: int|
        is_bin_index(sz, b) && #[trigger] freed_slot(
            pre.bins_()[b].slabs_(), post.bins_()[b].slabs_(), si, ptr,
            pre.inner_().lo_addr(), (SLAB_MIN_ORDER + b) as nat))
}

/// A simple allocator that allocates based on size classes: small
/// requests go to a bin of slabs, large ones to the buddy allocator.
pub struct Allocator {
    inner: BuddyBlockAllocator,
    bins: Vec<AllocBin>,
}

impl Allocator {
    /// The buddy allocator under the bins.
    pub closed spec fn inner_(&self) -> BuddyBlockAllocator {
        self.inner
    }

    /// The bins, smallest size class first.
    pub closed spec fn bins_(&self) -> Seq<AllocBin> {
        self.bins@
    }

    /// The allocator's invariant: the buddy allocator is sound, pages
    /// are the unit, and each bin serves its own size class with slabs
    /// drawn from (and still outstanding in) the buddy allocator.
    pub closed spec fn inv(&self) -> bool {
        &&& self.inner.inv()
        &&& self.inner.po() == PAGE_ORDER
        &&& self.inner.mo() == MAX_BLOCK_ORDER
        &&& self.inner.lo_addr() % (pow2(PAGE_ORDER as nat) as int) == 0
        &&& self.bins@.len() == SLAB_MAX_ORDER - SLAB_MIN_ORDER + 1
        &&& forall|b: int| 0 <= b < self.bins@.len()
            ==> (#[trigger] self.bins@[b]).inv()
                && self.bins@[b].ord() == SLAB_MIN_ORDER + b
                && self.bins@[b].slabs_tracked(&self.inner)
    }

    /// Creates a new bin allocator that will allocate memory from the
    /// region starting at address `start` and ending at address `end`.
    pub fn new(start: usize, end: usize) -> (r: Allocator)
        requires
            start <= end,
            PAGE_ORDER + MAX_BLOCK_ORDER + 1 < usize::BITS,
            end + pow2(PAGE_ORDER as nat) <= usize::MAX,
            BuddyBlockAllocator::spec_mem_start(
                start as int, end as int, PAGE_ORDER as nat, MAX_BLOCK_ORDER as nat)
                <= BuddyBlockAllocator::spec_mem_end(end as int, PAGE_ORDER as nat),
        ensures
            r.inv(),
            r.inner_().lo_addr() == BuddyBlockAllocator::spec_mem_start(
                start as int, end as int, PAGE_ORDER as nat, MAX_BLOCK_ORDER as nat),
            r.inner_().hi_addr() == BuddyBlockAllocator::spec_mem_end(
                end as int, PAGE_ORDER as nat),
            r.inner_().outstanding_() == 0,
            r.inner_().capacity_() == r.inner_().hi_addr() - r.inner_().lo_addr(),
            r.inner_().free_bytes() == r.inner_().hi_addr() - r.inner_().lo_addr(),
            r.bins_().len() == SLAB_MAX_ORDER - SLAB_MIN_ORDER + 1,
            forall|b: int| 0 <= b < r.bins_().len()
                ==> (#[trigger] r.bins_()[b]).slabs_().len() == 0,
    {
        let inner = BuddyBlockAllocator::new(start, end, PAGE_ORDER, MAX_BLOCK_ORDER);
        proof {
            lemma_pow2_pos(PAGE_ORDER as nat);
            let p = pow2(PAGE_ORDER as nat) as int;
            let arr = start + BuddyBlockAllocator::spec_arr_bytes(
                BuddyBlockAllocator::spec_num_pages(
                    start as int, end as int, PAGE_ORDER as nat),
                MAX_BLOCK_ORDER as int);
            vstd::arithmetic::div_mod::lemma_fundamental_div_mod_converse_mod(
                ((arr + p - 1) / p) * p, p, (arr + p - 1) / p, 0);
        }
        let mut bins: Vec<AllocBin> = Vec::new();
        let mut b: usize = 0;
        while b <= SLAB_MAX_ORDER - SLAB_MIN_ORDER
            invariant
                b <= SLAB_MAX_ORDER - SLAB_MIN_ORDER + 1,
                bins@.len() == b,
                inner.inv(),
                forall|j: int| 0 <= j < b
                    ==> (#[trigger] bins@[j]).inv()
                        && bins@[j].ord() == SLAB_MIN_ORDER + j
                        && bins@[j].slabs_().len() == 0,
            decreases SLAB_MAX_ORDER - SLAB_MIN_ORDER + 1 - b,
        {
            let bin = AllocBin::new(SLAB_MIN_ORDER + b);
            bins.push(bin);
            b = b + 1;
        }
        let r = Allocator { inner, bins };
        proof {
            assert forall|b2: int| 0 <= b2 < r.bins@.len()
                implies (#[trigger] r.bins@[b2]).slabs_tracked(&r.inner) by {
                assert(r.bins@[b2].slabs_().len() == 0);
            }
        }
        r
    }

    /// Allocates memory: a block of at least `size` bytes whose address
    /// is a multiple of `align`. `align` must be a power of two no
    /// larger than a page.
    pub fn allocate(&mut self, size: usize, align: usize) -> (r: Result<usize, AllocErr>)
        requires
            old(self).inv(),
            0 < size,
            0 < align,
            align <= pow2(PAGE_ORDER as nat),
            vstd::arithmetic::power2::is_pow2(align as int),
        ensures
            final(self).inv(),
            match r {
                Ok(a) => {
                    &&& a as int % (align as int) == 0
                    &&& alloc_ok_shape(
                        *old(self), *final(self), size as int, align as int, a as int)
                },
                Err(_) => alloc_exhausted(*old(self), size as int, align as int),
            },
    {
        let ghost j = choose|i: nat| vstd::arithmetic::power::pow(2, i) == align;
        proof {
            self.inner.lemma_word_bits();
            vstd::arithmetic::power2::is_pow2_equiv(align as int);
            assert(vstd::arithmetic::power2::is_pow2_exists(align as int));
            assert(vstd::arithmetic::power::pow(2, j) == align);
            vstd::arithmetic::power2::lemma_pow2(j);
            assert(align == pow2(j));
            if j > PAGE_ORDER as nat {
                lemma_pow2_strictly_increases(PAGE_ORDER as nat, j);
            }
            lemma_pow2_le_page_bits();
        }
        let alloc_sz = if size > align { size } else { align };
        let slab_max = pow2_usize(SLAB_MAX_ORDER);
        if alloc_sz > slab_max {
            // route to the buddy allocator with the smallest fitting order
            let mut k: usize = 0;
            while k < MAX_BLOCK_ORDER && pow2_usize(PAGE_ORDER + k) < alloc_sz
                invariant
                    k <= MAX_BLOCK_ORDER,
                    forall|kk: nat| kk <= (PAGE_ORDER + MAX_BLOCK_ORDER) as nat
                        ==> #[trigger] pow2(kk) <= usize::MAX,
                    forall|j2: int| 0 <= j2 < k
                        ==> #[trigger] pow2((PAGE_ORDER + j2) as nat) < alloc_sz,
                decreases MAX_BLOCK_ORDER - k,
            {
                proof {
                    lemma_pow2_le_page_bits();
                }
                k = k + 1;
            }
            proof {
                lemma_pow2_le_page_bits();
            }
            if pow2_usize(PAGE_ORDER + k) < alloc_sz {
                proof {
                    assert(k == MAX_BLOCK_ORDER);
                    assert(alloc_sz > pow2((PAGE_ORDER + MAX_BLOCK_ORDER) as nat));
                }
                return Err(AllocErr);
            }
            proof {
                assert(is_block_order(alloc_sz as int, k as int));
            }
            match self.inner.allocate(k) {
                Ok(a) => {
                    proof {
                        assert(0 <= old(self).inner_().lo_addr() <= a);
                        self.lemma_buddy_alignment(*old(self), a as int, k as int, j);
                        assert(old(self).inner_().bsz(k as int)
                            == pow2((PAGE_ORDER + k) as nat));
                        assert(alloc_ok_shape(
                            *old(self), *self, size as int, align as int, a as int));
                    }
                    Ok(a)
                },
                Err(e) => {
                    proof {
                        assert(alloc_exhausted(*old(self), size as int, align as int));
                    }
                    Err(e)
                },
            }
        } else {
            // route to the smallest bin whose slot size fits
            let mut b: usize = 0;
            proof {
                lemma_pow2_le_page_bits();
            }
            while pow2_usize(SLAB_MIN_ORDER + b) < alloc_sz
                invariant
                    b <= SLAB_MAX_ORDER - SLAB_MIN_ORDER,
                    alloc_sz <= pow2(SLAB_MAX_ORDER as nat),
                    forall|kk: nat| kk <= (PAGE_ORDER + MAX_BLOCK_ORDER) as nat
                        ==> #[trigger] pow2(kk) <= usize::MAX,
                    forall|k1: nat, k2: nat|
                        k1 <= k2 <= (PAGE_ORDER + MAX_BLOCK_ORDER) as nat
                        ==> #[trigger] pow2(k1) <= #[trigger] pow2(k2),
                    forall|j2: int| 0 <= j2 < b
                        ==> #[trigger] pow2((SLAB_MIN_ORDER + j2) as nat) < alloc_sz,
                decreases SLAB_MAX_ORDER - SLAB_MIN_ORDER - b,
            {
                proof {
                    lemma_pow2_le_page_bits();
                    if b == SLAB_MAX_ORDER - SLAB_MIN_ORDER {
                        assert(pow2((SLAB_MIN_ORDER + b) as nat) >= alloc_sz);
                        assert(false);
                    }
                }
                b = b + 1;
            }
            let ghost pre = *self;
            let mut bin = self.bins.remove(b);
            let r = bin.allocate(&mut self.inner);
            let ghost binfin = bin;
            self.bins.insert(b, bin);
            proof {
                crate::buddy::lemma_remove_insert(pre.bins@, b as int, binfin);
                assert(self.bins@ =~= pre.bins@.update(b as int, binfin));
                self.reestablish_bins(pre, b as int, binfin);
            }
            proof {
                assert(is_bin_index(alloc_sz as int, b as int));
            }
            match r {
                Ok(a) => {
                    proof {
                        assert(a as int % (pow2((SLAB_MIN_ORDER + b) as nat) as int) == 0);
                        let (si, i) = choose|si: int, i: int|
                            #[trigger] fresh_slot(
                                pre.bins_()[b as int].slabs_(), binfin.slabs_(), si, i,
                                a as int, pre.bins_()[b as int].ord());
                        assert(pre.bins_()[b as int].ord()
                            == (SLAB_MIN_ORDER + b) as nat);
                        assert(fresh_slot(
                            old(self).bins_()[b as int].slabs_(),
                            self.bins_()[b as int].slabs_(), si, i, a as int,
                            (SLAB_MIN_ORDER + b) as nat));
                        assert(alloc_ok_shape(
                            *old(self), *self, size as int, align as int, a as int));
                        assert(j <= SLAB_MIN_ORDER + b) by {
                            if j > SLAB_MIN_ORDER + b {
                                lemma_pow2_strictly_increases((SLAB_MIN_ORDER + b) as nat, j);
                            }
                        }
                        crate::util::lemma_pow2_divides(
                            a as int, j, (SLAB_MIN_ORDER + b - j) as nat);
                        assert(j + (SLAB_MIN_ORDER + b - j) as nat
                            == (SLAB_MIN_ORDER + b) as nat);
                    }
                    Ok(a)
                },
                Err(e) => {
                    proof {
                        assert(pre.bins_()[b as int].partial_().len() == 0
                            && pre.bins_()[b as int].free_().len() == 0);
                        assert(alloc_exhausted(*old(self), size as int, align as int));
                    }
                    Err(e)
                },
            }
        }
    }

    /// Deallocates the memory referenced by `ptr`, which must hold a
    /// block allocated with the same `size` and `align`.
    pub fn dealloc(&mut self, ptr: usize, size: usize, align: usize)
        requires
            old(self).inv(),
            0 < size,
            0 < align,
            align <= pow2(PAGE_ORDER as nat),
            vstd::arithmetic::power2::is_pow2(align as int),
            old(self).valid_dealloc(ptr as int, size as int, align as int),
        ensures
            final(self).inv(),
            dealloc_shape(*old(self), *final(self), ptr as int, size as int, align as int),
    {
        proof {
            self.inner.lemma_word_bits();
            lemma_pow2_le_page_bits();
        }
        let alloc_sz = if size > align { size } else { align };
        let slab_max = pow2_usize(SLAB_MAX_ORDER);
        if alloc_sz > slab_max {
            let mut k: usize = 0;
            while k < MAX_BLOCK_ORDER && pow2_usize(PAGE_ORDER + k) < alloc_sz
                invariant
                    k <= MAX_BLOCK_ORDER,
                    forall|kk: nat| kk <= (PAGE_ORDER + MAX_BLOCK_ORDER) as nat
                        ==> #[trigger] pow2(kk) <= usize::MAX,
                    forall|j2: int| 0 <= j2 < k
                        ==> #[trigger] pow2((PAGE_ORDER + j2) as nat) < alloc_sz,
                decreases MAX_BLOCK_ORDER - k,
            {
                proof {
                    lemma_pow2_le_page_bits();
                }
                k = k + 1;
            }
            proof {
                lemma_pow2_le_page_bits();
                assert(is_block_order(alloc_sz as int, k as int));
            }
            if pow2_usize(PAGE_ORDER + k) < alloc_sz {
                proof {
                    assert(false);
                }
                return;
            }
            self.inner.free(ptr, k);
            proof {
                assert(old(self).inner_().bsz(k as int) == pow2((PAGE_ORDER + k) as nat));
                assert(is_block_order(alloc_sz as int, k as int)
                    && self.inner_().free_bytes()
                        == old(self).inner_().free_bytes()
                            + pow2((PAGE_ORDER + k) as nat));
                let ghost pre = *old(self);
                assert forall|b2: int| 0 <= b2 < self.bins@.len()
                    implies (#[trigger] self.bins@[b2]).slabs_tracked(&self.inner) by {
                    assert(pre.bins@[b2].slabs_tracked(&pre.inner));
                    assert forall|s: int| 0 <= s < self.bins@[b2].slabs_().len()
                        implies self.inner.allocated_().dom().contains(
                            (#[trigger] self.bins@[b2].slabs_()[s]).head())
                            && self.inner.allocated_()[self.bins@[b2].slabs_()[s].head()]
                                == 0 by {
                        assert(pre.inner.allocated_().dom().contains(
                            pre.bins@[b2].slabs_()[s].head()));
                        assert((pre.bins_()[b2].slabs_()[s]).head() != ptr as int);
                    }
                }
            }
        } else {
            let mut b: usize = 0;
            while pow2_usize(SLAB_MIN_ORDER + b) < alloc_sz
                invariant
                    b <= SLAB_MAX_ORDER - SLAB_MIN_ORDER,
                    alloc_sz <= pow2(SLAB_MAX_ORDER as nat),
                    forall|kk: nat| kk <= (PAGE_ORDER + MAX_BLOCK_ORDER) as nat
                        ==> #[trigger] pow2(kk) <= usize::MAX,
                    forall|k1: nat, k2: nat|
                        k1 <= k2 <= (PAGE_ORDER + MAX_BLOCK_ORDER) as nat
                        ==> #[trigger] pow2(k1) <= #[trigger] pow2(k2),
                    forall|j2: int| 0 <= j2 < b
                        ==> #[trigger] pow2((SLAB_MIN_ORDER + j2) as nat) < alloc_sz,
                decreases SLAB_MAX_ORDER - SLAB_MIN_ORDER - b,
            {
                proof {
                    lemma_pow2_le_page_bits();
                    if b == SLAB_MAX_ORDER - SLAB_MIN_ORDER {
                        assert(pow2((SLAB_MIN_ORDER + b) as nat) >= alloc_sz);
                        assert(false);
                    }
                }
                b = b + 1;
            }
            proof {
                assert(is_bin_index(alloc_sz as int, b as int));
            }
            let ghost pre = *self;
            let mut bin = self.bins.remove(b);
            bin.free(ptr, &self.inner);
            let ghost binfin = bin;
            self.bins.insert(b, bin);
            proof {
                crate::buddy::lemma_remove_insert(pre.bins@, b as int, binfin);
                assert(self.bins@ =~= pre.bins@.update(b as int, binfin));
                self.reestablish_bins_after_free(pre, b as int, binfin);
                assert(is_bin_index(alloc_sz as int, b as int));
                let si = choose|si: int| #[trigger] freed_slot(
                    pre.bins_()[b as int].slabs_(), binfin.slabs_(), si, ptr as int,
                    self.inner_().lo_addr(), pre.bins_()[b as int].ord());
                assert(pre.bins_()[b as int].ord() == (SLAB_MIN_ORDER + b) as nat);
                assert(freed_slot(
                    old(self).bins_()[b as int].slabs_(),
                    self.bins_()[b as int].slabs_(), si, ptr as int,
                    old(self).inner_().lo_addr(), (SLAB_MIN_ORDER + b) as nat));
            }
        }
    }

    /// Whether `ptr` is a live allocation of the class that `size` and
    /// `align` select, so freeing it through that class is sound.
    pub open spec fn valid_dealloc(&self, ptr: int, size: int, align: int) -> bool {
        let sz = spec_alloc_size(size, align);
        if sz > pow2(SLAB_MAX_ORDER as nat) {
            forall|k: int| #[trigger] is_block_order(sz, k) ==> {
                &&& pow2((PAGE_ORDER + k) as nat) >= sz
                &&& self.inner_().lo_addr() <= ptr
                &&& (ptr - self.inner_().lo_addr()) % (self.inner_().bsz(k) as int) == 0
                &&& ptr + self.inner_().bsz(k) <= self.inner_().hi_addr()
                &&& self.inner_().range_free(ptr, k)
                &&& self.inner_().alloc_disjoint_except(ptr, k)
                &&& forall|b2: int, s: int|
                    0 <= b2 < self.bins_().len()
                        && 0 <= s < self.bins_()[b2].slabs_().len()
                    ==> (#[trigger] self.bins_()[b2].slabs_()[s]).head() != ptr
            }
        } else {
            &&& self.inner_().lo_addr() <= ptr
            &&& forall|b: int| #[trigger] is_bin_index(sz, b)
                ==> self.bins_()[b].valid_free(ptr, self.inner_().lo_addr())
        }
    }

    /// One bin was replaced after drawing a slot; the others still hold
    /// and their slabs stay outstanding in the buddy allocator.
    proof fn reestablish_bins(&self, pre: Self, b: int, binfin: AllocBin)
        requires
            pre.inv(),
            0 <= b < pre.bins@.len(),
            binfin.inv(),
            binfin.ord() == pre.bins@[b].ord(),
            binfin.slabs_tracked(&self.inner),
            self.bins@ == pre.bins@.update(b, binfin),
            self.inner.inv(),
            self.inner.po() == PAGE_ORDER,
            self.inner.mo() == MAX_BLOCK_ORDER,
            self.inner.lo_addr() == pre.inner.lo_addr(),
            forall|h: int| #[trigger] pre.inner.allocated_().dom().contains(h)
                ==> self.inner.allocated_().dom().contains(h)
                    && self.inner.allocated_()[h] == pre.inner.allocated_()[h],
        ensures
            self.inv(),
    {
        assert forall|b2: int| 0 <= b2 < self.bins@.len()
            implies (#[trigger] self.bins@[b2]).inv()
                && self.bins@[b2].ord() == SLAB_MIN_ORDER + b2
                && self.bins@[b2].slabs_tracked(&self.inner) by {
            if b2 != b {
                assert(pre.bins@[b2].inv());
                assert(pre.bins@[b2].slabs_tracked(&pre.inner));
                assert forall|s: int| 0 <= s < self.bins@[b2].slabs_().len()
                    implies self.inner.allocated_().dom().contains(
                        (#[trigger] self.bins@[b2].slabs_()[s]).head())
                        && self.inner.allocated_()[self.bins@[b2].slabs_()[s].head()]
                            == 0 by {
                    assert(pre.inner.allocated_().dom().contains(
                        pre.bins@[b2].slabs_()[s].head()));
                }
            }
        }
    }

    /// One bin was replaced after freeing a slot; nothing else moved.
    proof fn reestablish_bins_after_free(&self, pre: Self, b: int, binfin: AllocBin)
        requires
            pre.inv(),
            0 <= b < pre.bins@.len(),
            binfin.inv(),
            binfin.ord() == pre.bins@[b].ord(),
            binfin.slabs_().len() == pre.bins@[b].slabs_().len(),
            forall|s: int| 0 <= s < binfin.slabs_().len()
                ==> (#[trigger] binfin.slabs_()[s]).head() == pre.bins@[b].slabs_()[s].head(),
            self.bins@ == pre.bins@.update(b, binfin),
            self.inner == pre.inner,
        ensures
            self.inv(),
    {
        assert forall|b2: int| 0 <= b2 < self.bins@.len()
            implies (#[trigger] self.bins@[b2]).inv()
                && self.bins@[b2].ord() == SLAB_MIN_ORDER + b2
                && self.bins@[b2].slabs_tracked(&self.inner) by {
            if b2 != b {
                assert(pre.bins@[b2].inv());
                assert(pre.bins@[b2].slabs_tracked(&pre.inner));
                assert forall|s: int| 0 <= s < self.bins@[b2].slabs_().len()
                    implies self.inner.allocated_().dom().contains(
                        (#[trigger] self.bins@[b2].slabs_()[s]).head())
                        && self.inner.allocated_()[self.bins@[b2].slabs_()[s].head()]
                            == 0 by {
                    assert(pre.inner.allocated_().dom().contains(
                        pre.bins@[b2].slabs_()[s].head()));
                }
            } else {
                assert(pre.bins@[b].slabs_tracked(&pre.inner));
                assert forall|s: int| 0 <= s < self.bins@[b2].slabs_().len()
                    implies self.inner.allocated_().dom().contains(
                        (#[trigger] self.bins@[b2].slabs_()[s]).head())
                        && self.inner.allocated_()[self.bins@[b2].slabs_()[s].head()]
                            == 0 by {
                    assert(binfin.slabs_()[s].head() == pre.bins@[b].slabs_()[s].head());
                    assert(pre.inner.allocated_().dom().contains(
                        pre.bins@[b].slabs_()[s].head()));
                }
            }
        }
    }

    /// The buddy route hands back a page-aligned block, which is aligned
    /// for any power of two up to the page size.
    proof fn lemma_buddy_alignment(&self, pre: Self, a: int, k: int, j: nat)
        requires
            pre.inv(),
            0 <= k <= MAX_BLOCK_ORDER,
            0 <= a,
            0 <= pre.inner_().lo_addr(),
            pre.inner_().lo_addr() <= a,
            (a - pre.inner_().lo_addr()) % (pre.inner_().bsz(k) as int) == 0,
            j <= PAGE_ORDER,
        ensures
            a % (pow2(j) as int) == 0,
    {
        let lo = pre.inner_().lo_addr();
        lemma_pow2_pos(PAGE_ORDER as nat);
        lemma_pow2_pos(j);
        // block alignment at order k implies page alignment of the offset
        assert(PAGE_ORDER as nat + k as nat == (PAGE_ORDER + k) as nat);
        assert((a - lo) % (pow2(PAGE_ORDER as nat + k as nat) as int) == 0);
        crate::util::lemma_pow2_divides(a - lo, PAGE_ORDER as nat, k as nat);
        // the region base is page-aligned, so the address itself is
        crate::util::lemma_mod_add_sub(a - lo, lo, pow2(PAGE_ORDER as nat) as int);
        // page alignment gives alignment at any smaller power of two
        assert(j + (PAGE_ORDER as nat - j) as nat == PAGE_ORDER as nat);
        assert(a % (pow2(j + (PAGE_ORDER as nat - j) as nat) as int) == 0);
        crate::util::lemma_pow2_divides(a, j, (PAGE_ORDER as nat - j) as nat);
    }
}

/// The fixed orders stay inside the machine word.
proof fn lemma_pow2_le_page_bits()
    requires
        PAGE_ORDER + MAX_BLOCK_ORDER + 1 < usize::BITS,
    ensures
        pow2(PAGE_ORDER as nat) <= usize::MAX,
        pow2(SLAB_MAX_ORDER as nat) <= usize::MAX,
        forall|k: nat| k <= (PAGE_ORDER + MAX_BLOCK_ORDER) as nat
            ==> #[trigger] pow2(k) <= usize::MAX,
        forall|k1: nat, k2: nat| k1 <= k2 <= (PAGE_ORDER + MAX_BLOCK_ORDER) as nat
            ==> #[trigger] pow2(k1) <= #[trigger] pow2(k2),
{
    vstd::arithmetic::power2::lemma2_to64();
    vstd::layout::unsigned_int_max_values();
    assert forall|k: nat| k <= (PAGE_ORDER + MAX_BLOCK_ORDER) as nat
        implies #[trigger] pow2(k) <= usize::MAX by {
        if k < usize::BITS as nat {
            vstd::bits::lemma_usize_pow2_no_overflow(k);
        }
    }
    assert forall|k1: nat, k2: nat| k1 <= k2 <= (PAGE_ORDER + MAX_BLOCK_ORDER) as nat
        implies #[trigger] pow2(k1) <= #[trigger] pow2(k2) by {
        if k1 < k2 {
            lemma_pow2_strictly_increases(k1, k2);
        }
    }
}

} // verus!
