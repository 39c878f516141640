//! The buddy page allocator. A zone manages the free blocks of one order
//! `k`: blocks of `pow2(page_order + k)` bytes at offsets aligned to their
//! size within the zone. Each pair of buddy blocks shares one bit of the
//! zone's bitmap, kept equal to "exactly one of the pair is free" by
//! toggling it on every alloc or free that touches the pair.
//!
//! The allocator stacks one zone per order `0 ..= max_block_order`. On
//! alloc it splits a block of the next order when a zone is empty; on free
//! it merges a block with its buddy whenever both halves are free, so that
//! after any operation no two buddies below the top order are both free.

use vstd::prelude::*;

verus! {

use vstd::arithmetic::power2::pow2;
use vstd::arithmetic::power2::lemma_pow2_adds;
use vstd::arithmetic::power2::lemma_pow2_pos;
use vstd::arithmetic::div_mod::lemma_fundamental_div_mod;
use vstd::arithmetic::div_mod::lemma_fundamental_div_mod_converse_mod;
use vstd::arithmetic::div_mod::lemma_fundamental_div_mod_converse_div;
use vstd::arithmetic::div_mod::lemma_div_denominator;
use vstd::arithmetic::div_mod::lemma_div_multiples_vanish;
use vstd::arithmetic::mul::lemma_mul_is_commutative;
use vstd::arithmetic::mul::lemma_mul_inequality;

use crate::bitmap::Bitmap;
use crate::linked_list::LinkedList;
use crate::util::AllocErr;
use crate::util::pow2_usize;
use crate::util::lemma_mod_add_sub;

/// Whether the sequence holds the address `x`.
pub open spec fn mem(s: Seq<usize>, x: int) -> bool {
    exists|j: int| 0 <= j < s.len() && s[j] == x
}

/// No address occurs twice in the sequence.
pub open spec fn distinct(s: Seq<usize>) -> bool {
    forall|p: int, q: int| 0 <= p < q < s.len() ==> s[p] != s[q]
}

/// Removing position `j` removes exactly one occurrence of `s[j]`.
pub proof fn lemma_remove_mem(s: Seq<usize>, j: int, x: int)
    requires
        0 <= j < s.len(),
        distinct(s),
    ensures
        x != s[j] ==> (mem(s.remove(j), x) <==> mem(s, x)),
        !mem(s.remove(j), s[j] as int),
        distinct(s.remove(j)),
{
    let t = s.remove(j);
    assert forall|p: int| 0 <= p < t.len() implies t[p] == if p < j { s[p] } else { s[p + 1] } by {}
    if x != s[j] {
        if mem(s, x) {
            let p = choose|p: int| 0 <= p < s.len() && s[p] == x;
            if p < j {
                assert(t[p] == x);
            } else {
                assert(p > j);
                assert(t[p - 1] == x);
            }
            assert(mem(t, x));
        }
        if mem(t, x) {
            let p = choose|p: int| 0 <= p < t.len() && t[p] == x;
            if p < j {
                assert(s[p] == x);
            } else {
                assert(s[p + 1] == x);
            }
            assert(mem(s, x));
        }
    }
    if mem(t, s[j] as int) {
        let p = choose|p: int| 0 <= p < t.len() && t[p] == s[j];
        if p < j {
            assert(s[p] == s[j]);
            assert(false);
        } else {
            assert(s[p + 1] == s[j]);
            assert(false);
        }
    }
}

/// Pushing an address adds exactly one occurrence of it.
pub proof fn lemma_push_mem(s: Seq<usize>, a: usize, x: int)
    ensures
        mem(s.push(a), x) <==> (mem(s, x) || x == a),
        !mem(s, a as int) && distinct(s) ==> distinct(s.push(a)),
{
    let t = s.push(a);
    if mem(s, x) {
        let p = choose|p: int| 0 <= p < s.len() && s[p] == x;
        assert(t[p] == x);
    }
    if x == a {
        assert(t[s.len() as int] == x);
    }
    if mem(t, x) && x != a {
        let p = choose|p: int| 0 <= p < t.len() && t[p] == x;
        assert(p < s.len());
        assert(s[p] == x);
    }
}

/// Dropping the last element removes exactly one occurrence of it.
pub proof fn lemma_drop_last_mem(s: Seq<usize>, x: int)
    requires
        s.len() > 0,
        distinct(s),
    ensures
        x != s.last() ==> (mem(s.drop_last(), x) <==> mem(s, x)),
        !mem(s.drop_last(), s.last() as int),
        distinct(s.drop_last()),
{
    lemma_remove_mem(s, s.len() - 1, x);
    assert(s.remove(s.len() - 1) =~= s.drop_last());
}

/// A single zone of the buddy allocator: the free blocks of one order.
pub struct BuddyBlockAllocatorZone {
    free_list: LinkedList,
    start: usize,
    order: usize,
    page_order: usize,
    top: bool,
    map: Bitmap,
}

impl BuddyBlockAllocatorZone {
    /// The addresses of the zone's free blocks.
    pub closed spec fn list(&self) -> Seq<usize> {
        self.free_list@
    }

    /// The pair-parity bits.
    pub closed spec fn bits(&self) -> Seq<bool> {
        self.map@
    }

    /// The base address of the zone's memory region.
    pub closed spec fn base(&self) -> int {
        self.start as int
    }

    /// The zone's order.
    pub closed spec fn ord(&self) -> nat {
        self.order as nat
    }

    /// The allocator's page order.
    pub closed spec fn pg(&self) -> nat {
        self.page_order as nat
    }

    /// Whether this is the top zone, whose blocks never merge.
    pub closed spec fn is_top(&self) -> bool {
        self.top
    }

    /// The byte size of this zone's blocks.
    pub open spec fn bsz(&self) -> nat {
        pow2(self.pg() + self.ord())
    }

    /// Whether `a` could be a block of this zone: at or above the base and
    /// offset a multiple of the block size.
    pub open spec fn aligned(&self, a: int) -> bool {
        &&& self.base() <= a
        &&& (a - self.base()) % (self.bsz() as int) == 0
    }

    /// The index of the parity bit shared by `a` and its buddy.
    pub open spec fn pair(&self, a: int) -> int {
        (a - self.base()) / (2 * self.bsz() as int)
    }

    /// The lower block of pair `i`.
    pub open spec fn pair_lo(&self, i: int) -> int {
        self.base() + 2 * i * self.bsz()
    }

    /// The higher block of pair `i`.
    pub open spec fn pair_hi(&self, i: int) -> int {
        self.pair_lo(i) + self.bsz()
    }

    /// The buddy of block `a`: the other half of the enclosing block of the
    /// next order.
    pub open spec fn spec_buddy(&self, a: int) -> int {
        if a == self.pair_lo(self.pair(a)) {
            self.pair_hi(self.pair(a))
        } else {
            self.pair_lo(self.pair(a))
        }
    }

    /// Bounds on the zone's exponents: block and pair sizes fit the word.
    pub closed spec fn geom_wf(&self) -> bool {
        &&& self.pg() + self.ord() + 1 < usize::BITS
        &&& pow2(self.pg() + self.ord() + 1) <= usize::MAX
    }

    /// The zone's invariant: free blocks are aligned, distinct, covered by
    /// the bitmap, and each parity bit says whether exactly one block of
    /// its pair is free.
    pub closed spec fn inv(&self) -> bool {
        &&& self.map.wf()
        &&& self.geom_wf()
        &&& distinct(self.list())
        &&& forall|j: int| 0 <= j < self.list().len()
            ==> self.aligned(#[trigger] self.list()[j] as int)
        &&& forall|j: int| 0 <= j < self.list().len()
            ==> self.pair(#[trigger] self.list()[j] as int) < self.bits().len()
        &&& forall|i: int| 0 <= i < self.bits().len()
            ==> #[trigger] self.bits()[i]
                == (mem(self.list(), self.pair_lo(i)) != mem(self.list(), self.pair_hi(i)))
    }

    /// Geometry that never changes after construction.
    pub open spec fn same_geom(&self, other: &Self) -> bool {
        &&& self.base() == other.base()
        &&& self.ord() == other.ord()
        &&& self.pg() == other.pg()
        &&& self.is_top() == other.is_top()
        &&& self.bits().len() == other.bits().len()
    }

    /// An aligned address is the low or the high member of its pair, and
    /// its buddy is the other member.
    pub proof fn lemma_pair_members(&self, a: int)
        requires
            self.geom_wf(),
            self.aligned(a),
        ensures
            a == self.pair_lo(self.pair(a)) || a == self.pair_hi(self.pair(a)),
            self.spec_buddy(a) != a,
            self.aligned(self.spec_buddy(a)),
            self.pair(self.spec_buddy(a)) == self.pair(a),
            self.spec_buddy(self.spec_buddy(a)) == a,
            self.pair(a) >= 0,
            self.pair_lo(self.pair(a)) + 2 * self.bsz() == self.pair_hi(self.pair(a)) + self.bsz(),
    {
        let b = self.bsz() as int;
        let o = a - self.base();
        lemma_pow2_pos(self.pg() + self.ord());
        lemma_pow2_pos(self.pg() + self.ord() + 1);
        lemma_pow2_adds(self.pg() + self.ord(), 1);
        vstd::arithmetic::power2::lemma2_to64();
        lemma_fundamental_div_mod(o, b);
        let q = o / b;
        assert(o == b * q);
        lemma_mul_is_commutative(b, q);
        // pair index is q / 2
        lemma_div_denominator(o, b, 2);
        assert(o / (2 * b) == (o / b) / 2) by {
            assert(b * 2 == 2 * b);
        }
        lemma_fundamental_div_mod(q, 2);
        let i = q / 2;
        assert(self.pair(a) == i);
        assert(q == 2 * i + q % 2);
        if q % 2 == 0 {
            assert(o == b * (2 * i)) by (nonlinear_arith)
                requires o == b * q, q == 2 * i;
            assert(o == 2 * i * b) by (nonlinear_arith)
                requires o == b * (2 * i);
            assert(a == self.pair_lo(i));
        } else {
            assert(o == b * (2 * i) + b) by (nonlinear_arith)
                requires o == b * q, q == 2 * i + 1;
            assert(o == 2 * i * b + b) by (nonlinear_arith)
                requires o == b * (2 * i) + b;
            assert(a == self.pair_hi(i));
        }
        // both pair members are aligned with pair index i
        self.lemma_pair_member_facts(i);
    }

    /// Both members of a well-formed pair are aligned and have pair index
    /// `i`.
    pub proof fn lemma_pair_member_facts(&self, i: int)
        requires
            self.geom_wf(),
            i >= 0,
        ensures
            self.aligned(self.pair_lo(i)),
            self.aligned(self.pair_hi(i)),
            self.pair(self.pair_lo(i)) == i,
            self.pair(self.pair_hi(i)) == i,
            self.pair_lo(i) < self.pair_hi(i),
    {
        let b = self.bsz() as int;
        lemma_pow2_pos(self.pg() + self.ord());
        let lo = self.pair_lo(i);
        let hi = self.pair_hi(i);
        assert(lo - self.base() == 2 * i * b);
        assert(2 * i * b == (2 * i) * b);
        lemma_fundamental_div_mod_converse_mod(2 * i * b, b, 2 * i, 0);
        assert((2 * i * b) % b == 0);
        assert(hi - self.base() == 2 * i * b + b);
        assert(2 * i * b + b == (2 * i + 1) * b) by (nonlinear_arith);
        lemma_fundamental_div_mod_converse_mod((2 * i + 1) * b, b, 2 * i + 1, 0);
        assert(2 * i * b >= 0) by (nonlinear_arith)
            requires i >= 0, b > 0;
        // pair of lo: (2ib)/(2b) == i
        assert(2 * i * b == i * (2 * b)) by (nonlinear_arith);
        lemma_fundamental_div_mod_converse_div(2 * i * b, 2 * b, i, 0);
        assert((2 * i * b) / (2 * b) == i);
        // pair of hi: (2ib + b)/(2b) == i since 0 <= b < 2b
        lemma_fundamental_div_mod_converse_div(2 * i * b + b, 2 * b, i, b);
    }

    /// The exponent arithmetic of this zone stays within the machine word.
    proof fn lemma_exp_bounds(&self)
        requires
            self.geom_wf(),
        ensures
            self.pg() + self.ord() < usize::BITS,
            self.page_order + self.order <= usize::MAX,
            pow2(self.pg() + self.ord()) <= usize::MAX,
            self.bsz() >= 1,
            2 * self.bsz() == pow2(self.pg() + self.ord() + 1),
    {
        vstd::layout::unsigned_int_max_values();
        crate::util::lemma_pow2_gt(usize::BITS as nat);
        vstd::bits::lemma_usize_pow2_no_overflow((self.pg() + self.ord()) as nat);
        lemma_pow2_pos(self.pg() + self.ord());
        lemma_pow2_adds(self.pg() + self.ord(), 1);
        vstd::arithmetic::power2::lemma2_to64();
        assert(pow2(self.pg() + self.ord()) * 2 == 2 * pow2(self.pg() + self.ord()));
    }

    /// The byte size of this zone's blocks, as a machine word.
    fn block_size(&self) -> (r: usize)
        requires
            self.geom_wf(),
        ensures
            r == self.bsz(),
            r >= 1,
    {
        proof {
            self.lemma_exp_bounds();
        }
        pow2_usize(self.page_order + self.order)
    }

    /// A new zone over zeroed parity bits, with an empty free list.
    pub fn new(start: usize, order: usize, page_order: usize, top: bool, map: Bitmap) -> (r: Self)
        requires
            map.wf(),
            page_order + order + 1 < usize::BITS,
            page_order + order + 1 <= usize::MAX,
        ensures
            r.inv(),
            r.list() == Seq::<usize>::empty(),
            r.bits().len() == map@.len(),
            forall|i: int| 0 <= i < r.bits().len() ==> !r.bits()[i],
            r.base() == start,
            r.ord() == order,
            r.pg() == page_order,
            r.is_top() == top,
    {
        proof {
            vstd::layout::unsigned_int_max_values();
            if pow2((page_order + order + 1) as nat) > usize::MAX {
                vstd::arithmetic::power2::lemma_pow2_strictly_increases(
                    (page_order + order + 1) as nat, usize::BITS as nat);
            }
        }
        let mut map = map;
        map.zero();
        let r = BuddyBlockAllocatorZone {
            free_list: LinkedList::new(),
            start,
            order,
            page_order,
            top,
            map,
        };
        proof {
            assert forall|i: int| 0 <= i < r.bits().len() implies #[trigger] r.bits()[i]
                == (mem(r.list(), r.pair_lo(i)) != mem(r.list(), r.pair_hi(i))) by {
                assert(!r.bits()[i]);
                assert(!mem(r.list(), r.pair_lo(i)));
            }
        }
        r
    }

    /// Pops a free block, toggling its pair's parity bit.
    pub fn allocate(&mut self) -> (r: Result<usize, AllocErr>)
        requires
            old(self).inv(),
        ensures
            final(self).inv(),
            final(self).same_geom(old(self)),
            match r {
                Ok(a) => {
                    &&& old(self).list().len() > 0
                    &&& a == old(self).list().last()
                    &&& final(self).list() == old(self).list().drop_last()
                    &&& final(self).bits() == old(self).bits().update(
                        old(self).pair(a as int),
                        !old(self).bits()[old(self).pair(a as int)])
                },
                Err(_) => {
                    &&& old(self).list().len() == 0
                    &&& final(self).list() == old(self).list()
                    &&& final(self).bits() == old(self).bits()
                },
            },
    {
        match self.free_list.pop() {
            Some(ptr) => {
                proof {
                    let last = old(self).list().len() - 1;
                    assert(old(self).list()[last] == ptr);
                    assert(mem(old(self).list(), ptr as int));
                    assert(old(self).aligned(old(self).list()[last] as int));
                    assert(old(self).pair(old(self).list()[last] as int)
                        < old(self).bits().len());
                }
                let ghost prev = *self;
                let index = self.get_ptr_index(ptr);
                self.map.toggle_bit(index);
                proof {
                    self.lemma_parity_after_single_change(*old(self), ptr as int, false);
                }
                Ok(ptr)
            },
            None => Err(AllocErr),
        }
    }

    /// Returns the pair-parity bit index for block `ptr`.
    fn get_ptr_index(&self, ptr: usize) -> (r: usize)
        requires
            self.geom_wf(),
            self.aligned(ptr as int),
        ensures
            r == self.pair(ptr as int),
    {
        let bsz = self.block_size();
        proof {
            self.lemma_exp_bounds();
            assert(self.pair(ptr as int) >= 0) by {
                let b = self.bsz() as int;
                vstd::arithmetic::div_mod::lemma_div_pos_is_pos(ptr - self.base(), 2 * b);
            }
        }
        let off = ptr - self.start;
        proof {
            lemma_div_denominator(off as int, self.bsz() as int, 2);
            lemma_mul_is_commutative(self.bsz() as int, 2);
        }
        (off / bsz) / 2
    }

    /// Whether `ptr` sits on a block boundary of this zone.
    pub fn is_valid_ptr(&self, ptr: usize) -> (r: bool)
        requires
            self.geom_wf(),
            self.base() <= ptr,
        ensures
            r == self.aligned(ptr as int),
    {
        let bsz = self.block_size();
        (ptr - self.start) % bsz == 0
    }

    /// The buddy of block `ptr`: the other half of the enclosing block of
    /// the next order.
    pub fn get_ptr_buddy(&self, ptr: usize) -> (r: usize)
        requires
            self.geom_wf(),
            self.aligned(ptr as int),
            ptr + self.bsz() <= usize::MAX,
        ensures
            r == self.spec_buddy(ptr as int),
    {
        proof {
            self.lemma_pair_members(ptr as int);
            lemma_pow2_pos(self.pg() + self.ord());
        }
        let bsz = self.block_size();
        let off = ptr - self.start;
        let q = off / bsz;
        proof {
            let b = self.bsz() as int;
            let i = self.pair(ptr as int);
            lemma_fundamental_div_mod(off as int, b);
            lemma_div_denominator(off as int, b, 2);
            lemma_mul_is_commutative(b, 2);
            lemma_fundamental_div_mod(q as int, 2);
            if ptr == self.pair_lo(i) {
                assert(off == 2 * i * b);
                assert(2 * i * b == i * (2 * b)) by (nonlinear_arith);
                lemma_fundamental_div_mod_converse_div(off as int, b, 2 * i, 0)
            } else {
                assert(off == 2 * i * b + b);
                assert(2 * i * b + b == (2 * i + 1) * b) by (nonlinear_arith);
                lemma_fundamental_div_mod_converse_div(off as int, b, 2 * i + 1, 0);
            }
        }
        if q % 2 == 0 {
            ptr + bsz
        } else {
            ptr - bsz
        }
    }

    /// Frees `ptr` into the zone. Returns `None` when the block was pushed
    /// to the free list, or `Some(merged)` when it merged with its free
    /// buddy; `merged` is the enclosing block of the next order.
    pub fn free(&mut self, ptr: usize) -> (r: Option<usize>)
        requires
            old(self).inv(),
            old(self).aligned(ptr as int),
            old(self).pair(ptr as int) < old(self).bits().len(),
            !mem(old(self).list(), ptr as int),
            ptr + old(self).bsz() <= usize::MAX,
        ensures
            final(self).inv(),
            final(self).same_geom(old(self)),
            final(self).bits() == old(self).bits().update(
                old(self).pair(ptr as int),
                !old(self).bits()[old(self).pair(ptr as int)]),
            match r {
                None => {
                    &&& final(self).list() == old(self).list().push(ptr)
                    &&& (old(self).is_top()
                        || !mem(old(self).list(), old(self).spec_buddy(ptr as int)))
                },
                Some(m) => {
                    &&& !old(self).is_top()
                    &&& mem(old(self).list(), old(self).spec_buddy(ptr as int))
                    &&& m == old(self).pair_lo(old(self).pair(ptr as int))
                    &&& m <= ptr
                    &&& forall|x: int| mem(final(self).list(), x)
                        <==> (mem(old(self).list(), x) && x != old(self).spec_buddy(ptr as int))
                    &&& final(self).list().len() == old(self).list().len() - 1
                },
            },
    {
        proof {
            old(self).lemma_pair_members(ptr as int);
        }
        let index = self.get_ptr_index(ptr);
        self.map.toggle_bit(index);
        let ghost mid = *self;
        let now_set = self.map.get_bit(index);
        if self.top || now_set {
            self.free_list.push(ptr);
            proof {
                // the bit before the toggle said whether the buddy is free;
                // it was clear, so the buddy is not free (or this is the top
                // zone and it does not matter)
                let i = old(self).pair(ptr as int);
                let buddy = old(self).spec_buddy(ptr as int);
                if !self.top {
                    assert(old(self).bits()[i]
                        == (mem(old(self).list(), old(self).pair_lo(i))
                            != mem(old(self).list(), old(self).pair_hi(i))));
                    assert(!old(self).bits()[i]);
                    assert(!mem(old(self).list(), buddy));
                }
                self.lemma_parity_after_single_change(*old(self), ptr as int, true);
            }
            None
        } else {
            let buddy = self.get_ptr_buddy(ptr);
            proof {
                // the bit before the toggle was set: exactly one of the pair
                // was free, and it is not ptr, so it is the buddy
                let i = old(self).pair(ptr as int);
                assert(old(self).bits()[i]);
                assert(mem(old(self).list(), old(self).spec_buddy(ptr as int)));
            }
            self.free_list.remove(buddy);
            proof {
                let i = old(self).pair(ptr as int);
                let j = choose|j: int|
                    0 <= j < mid.list().len() && mid.list()[j] == buddy
                    && self.list() == mid.list().remove(j);
                assert forall|x: int| mem(self.list(), x)
                    <==> (mem(old(self).list(), x) && x != buddy as int) by {
                    lemma_remove_mem(mid.list(), j, x);
                }
                lemma_remove_mem(mid.list(), j, buddy as int);
                self.lemma_parity_after_remove(*old(self), ptr as int);
            }
            if buddy < ptr {
                proof {
                    old(self).lemma_pair_member_facts(old(self).pair(ptr as int));
                }
                Some(buddy)
            } else {
                proof {
                    old(self).lemma_pair_member_facts(old(self).pair(ptr as int));
                }
                Some(ptr)
            }
        }
    }

    /// Whether the zone has no free block.
    pub fn list_is_empty(&self) -> (r: bool)
        ensures
            r == (self.list().len() == 0),
    {
        self.free_list.is_empty()
    }

    /// The largest block boundary of this zone at or below `ptr`.
    pub fn floor_alloc(&self, ptr: usize) -> (r: usize)
        requires
            self.inv(),
            self.base() <= ptr,
        ensures
            self.aligned(r as int),
            r <= ptr,
            ptr - r < self.bsz(),
    {
        proof {
            lemma_pow2_pos(self.pg() + self.ord());
        }
        let bsz = self.block_size();
        let addr = crate::util::align_down(ptr - self.start, bsz);
        proof {
            lemma_mod_add_sub(addr as int, 0, bsz as int);
        }
        addr + self.start
    }

    /// After pushing or popping a single address `a` whose parity bit was
    /// toggled, the parity invariant holds again.
    proof fn lemma_parity_after_single_change(&self, prev: Self, a: int, added: bool)
        requires
            prev.inv(),
            prev.aligned(a),
            0 <= a <= usize::MAX,
            0 <= prev.pair(a) < prev.bits().len(),
            self.same_geom(&prev),
            added ==> !mem(prev.list(), a) && self.list() == prev.list().push(a as usize),
            !added ==> prev.list().len() > 0 && a == prev.list().last()
                && self.list() == prev.list().drop_last(),
            self.bits() == prev.bits().update(prev.pair(a), !prev.bits()[prev.pair(a)]),
        ensures
            forall|i: int| 0 <= i < self.bits().len()
                ==> #[trigger] self.bits()[i]
                    == (mem(self.list(), self.pair_lo(i)) != mem(self.list(), self.pair_hi(i))),
            distinct(self.list()),
            forall|j: int| 0 <= j < self.list().len()
                ==> self.aligned(#[trigger] self.list()[j] as int),
            forall|j: int| 0 <= j < self.list().len()
                ==> self.pair(#[trigger] self.list()[j] as int) < self.bits().len(),
    {
        prev.lemma_pair_members(a);
        let ia = prev.pair(a);
        assert forall|i: int| 0 <= i < self.bits().len() implies #[trigger] self.bits()[i]
            == (mem(self.list(), self.pair_lo(i)) != mem(self.list(), self.pair_hi(i))) by {
            prev.lemma_pair_member_facts(i);
            let lo = prev.pair_lo(i);
            let hi = prev.pair_hi(i);
            if added {
                lemma_push_mem(prev.list(), a as usize, lo);
                lemma_push_mem(prev.list(), a as usize, hi);
            } else {
                lemma_drop_last_mem(prev.list(), lo);
                lemma_drop_last_mem(prev.list(), hi);
            }
            if i == ia {
                // a is one member; the other member's presence is unchanged
                assert(a == lo || a == hi);
            } else {
                // neither member is a: their pair index is i, not ia
                assert(lo != a && hi != a);
            }
        }
        if added {
            lemma_push_mem(prev.list(), a as usize, a);
            assert forall|j: int| 0 <= j < self.list().len()
                implies self.aligned(#[trigger] self.list()[j] as int)
                    && self.pair(self.list()[j] as int) < self.bits().len() by {
                if j < prev.list().len() {
                    assert(self.list()[j] == prev.list()[j]);
                } else {
                    assert(self.list()[j] == a as usize);
                }
            }
        } else {
            lemma_drop_last_mem(prev.list(), a);
            assert forall|j: int| 0 <= j < self.list().len()
                implies self.aligned(#[trigger] self.list()[j] as int)
                    && self.pair(self.list()[j] as int) < self.bits().len() by {
                assert(self.list()[j] == prev.list()[j]);
            }
        }
    }

    /// After removing the buddy of `a` (with `a` itself not in the list)
    /// and toggling their shared bit, the parity invariant holds again.
    proof fn lemma_parity_after_remove(&self, prev: Self, a: int)
        requires
            prev.inv(),
            prev.aligned(a),
            0 <= a <= usize::MAX,
            0 <= prev.pair(a) < prev.bits().len(),
            !mem(prev.list(), a),
            mem(prev.list(), prev.spec_buddy(a)),
            self.same_geom(&prev),
            forall|x: int| mem(self.list(), x)
                <==> (mem(prev.list(), x) && x != prev.spec_buddy(a)),
            distinct(self.list()),
            self.list().len() == prev.list().len() - 1,
            forall|j: int| 0 <= j < self.list().len()
                ==> mem(prev.list(), #[trigger] self.list()[j] as int),
            self.bits() == prev.bits().update(prev.pair(a), !prev.bits()[prev.pair(a)]),
        ensures
            forall|i: int| 0 <= i < self.bits().len()
                ==> #[trigger] self.bits()[i]
                    == (mem(self.list(), self.pair_lo(i)) != mem(self.list(), self.pair_hi(i))),
            forall|j: int| 0 <= j < self.list().len()
                ==> self.aligned(#[trigger] self.list()[j] as int),
            forall|j: int| 0 <= j < self.list().len()
                ==> self.pair(#[trigger] self.list()[j] as int) < self.bits().len(),
    {
        prev.lemma_pair_members(a);
        let ia = prev.pair(a);
        let buddy = prev.spec_buddy(a);
        assert forall|i: int| 0 <= i < self.bits().len() implies #[trigger] self.bits()[i]
            == (mem(self.list(), self.pair_lo(i)) != mem(self.list(), self.pair_hi(i))) by {
            prev.lemma_pair_member_facts(i);
            let lo = prev.pair_lo(i);
            let hi = prev.pair_hi(i);
            if i == ia {
                assert(!mem(self.list(), lo));
                assert(!mem(self.list(), hi));
            } else {
                assert(lo != buddy && hi != buddy);
            }
        }
        assert forall|j: int| 0 <= j < self.list().len()
            implies self.aligned(#[trigger] self.list()[j] as int)
                && self.pair(self.list()[j] as int) < self.bits().len() by {
            let x = self.list()[j] as int;
            assert(mem(prev.list(), x));
            let p = choose|p: int| 0 <= p < prev.list().len() && prev.list()[p] == x;
            assert(prev.aligned(prev.list()[p] as int));
            assert(prev.pair(prev.list()[p] as int) < prev.bits().len());
        }
    }
}


/// Removing and reinserting at the same position is an update.
pub proof fn lemma_remove_insert<T>(s: Seq<T>, k: int, v: T)
    requires
        0 <= k < s.len(),
    ensures
        s.remove(k).insert(k, v) =~= s.update(k, v),
{
}

/// The buddy page allocator: one zone per order `0 ..= max_block_order`
/// over a shared memory region.
pub struct BuddyBlockAllocator {
    zones: Vec<BuddyBlockAllocatorZone>,
    page_order: usize,
    max_order: usize,
    mem_start: usize,
    mem_end: usize,
    capacity: Ghost<int>,
    outstanding: Ghost<int>,
    allocated: Ghost<Map<int, int>>,
}

impl BuddyBlockAllocator {
    /// The page order: pages are `pow2(po())` bytes.
    pub closed spec fn po(&self) -> nat {
        self.page_order as nat
    }

    /// The largest block order.
    pub closed spec fn mo(&self) -> nat {
        self.max_order as nat
    }

    /// The first address of the managed region.
    pub closed spec fn lo_addr(&self) -> int {
        self.mem_start as int
    }

    /// One past the last address of the managed region.
    pub closed spec fn hi_addr(&self) -> int {
        self.mem_end as int
    }

    /// The bytes seeded into the allocator at construction.
    pub closed spec fn capacity_(&self) -> int {
        self.capacity@
    }

    /// The bytes currently allocated out of the region.
    pub closed spec fn outstanding_(&self) -> int {
        self.outstanding@
    }

    /// The outstanding allocations: block address to block order.
    pub closed spec fn allocated_(&self) -> Map<int, int> {
        self.allocated@
    }

    /// The range of an order-`order` block at `a` overlaps no outstanding
    /// allocation, except possibly the entry at `a` itself.
    pub open spec fn alloc_disjoint_except(&self, a: int, order: int) -> bool {
        forall|x: int| #[trigger] self.allocated_().dom().contains(x) && x != a
            ==> x + self.bsz(self.allocated_()[x]) <= a || a + self.bsz(order) <= x
    }

    /// The byte size of an order-`k` block.
    pub open spec fn bsz(&self, k: int) -> nat {
        pow2((self.po() + k) as nat)
    }

    /// Whether address `x` is a free block of order `k`.
    pub closed spec fn zone_has(&self, k: int, x: int) -> bool {
        mem(self.zones@[k].list(), x)
    }

    /// The free bytes held by the zones below order `n`.
    spec fn fb_upto(zs: Seq<BuddyBlockAllocatorZone>, po: nat, n: int) -> int
        decreases n,
    {
        if n <= 0 {
            0
        } else {
            Self::fb_upto(zs, po, n - 1)
                + zs[n - 1].list().len() * pow2((po + n - 1) as nat)
        }
    }

    /// The sum of the sizes of all free blocks.
    pub closed spec fn free_bytes(&self) -> int {
        Self::fb_upto(self.zones@, self.po(), self.mo() as int + 1)
    }

    /// Every free block ends at or below `b`.
    pub open spec fn all_below(&self, b: int) -> bool {
        forall|k: int, x: int| 0 <= k <= self.mo() && #[trigger] self.zone_has(k, x)
            ==> x + self.bsz(k) <= b
    }

    /// The range of an order-`order` block at `a` overlaps no free block.
    pub open spec fn range_free(&self, a: int, order: int) -> bool {
        forall|k: int, x: int| 0 <= k <= self.mo() && #[trigger] self.zone_has(k, x)
            ==> x + self.bsz(k) <= a || a + self.bsz(order) <= x
    }

    /// The start of the order-`k` block that contains address `p`.
    pub open spec fn encl(&self, p: int, k: int) -> int {
        self.lo_addr() + ((p - self.lo_addr()) / (self.bsz(k) as int)) * (self.bsz(k) as int)
    }

    /// The buddy of the order-`k` block at `a`: the other half of the
    /// enclosing block of order `k + 1`.
    pub open spec fn buddy_at(&self, a: int, k: int) -> int {
        if ((a - self.lo_addr()) / (self.bsz(k) as int)) % 2 == 0 {
            a + self.bsz(k)
        } else {
            a - self.bsz(k)
        }
    }

    /// What `free` does to the zones: the freed block merges with its
    /// free buddy at every order from `order` up to `h`, where it comes
    /// to rest because its buddy there is not free (or `h` is the top
    /// order). The zones afterwards hold exactly the blocks of before,
    /// less the merged buddies, plus the order-`h` block around `p`.
    pub open spec fn free_shape(pre: Self, post: Self, p: int, order: int, h: int) -> bool {
        &&& order <= h <= pre.mo()
        &&& forall|j: int| order <= j < h
            ==> pre.zone_has(j, #[trigger] pre.buddy_at(pre.encl(p, j), j))
        &&& h < pre.mo() ==> !pre.zone_has(h, pre.buddy_at(pre.encl(p, h), h))
        &&& forall|k2: int, x: int| 0 <= k2 <= pre.mo()
            ==> ((#[trigger] post.zone_has(k2, x)) <==> (
                (k2 == h && x == pre.encl(p, h))
                || (pre.zone_has(k2, x)
                    && !(order <= k2 < h
                        && x == pre.buddy_at(pre.encl(p, k2), k2)))))
    }

    /// An address aligned to the order-`k` block size is its own
    /// enclosing order-`k` block.
    proof fn lemma_encl_self(&self, p: int, k: int)
        requires
            0 <= k,
            self.lo_addr() <= p,
            (p - self.lo_addr()) % (self.bsz(k) as int) == 0,
        ensures
            self.encl(p, k) == p,
    {
        let b = self.bsz(k) as int;
        lemma_pow2_pos((self.po() + k) as nat);
        let x = p - self.lo_addr();
        lemma_fundamental_div_mod(x, b);
        assert((x / b) * b == x) by (nonlinear_arith)
            requires x == b * (x / b) + x % b, x % b == 0;
    }

    /// Taking the enclosing block twice, at a lower then a higher order,
    /// is taking it once at the higher order.
    proof fn lemma_encl_compose(&self, p: int, j: int, k: int)
        requires
            0 <= j <= k,
            self.lo_addr() <= p,
        ensures
            self.encl(self.encl(p, j), k) == self.encl(p, k),
    {
        let b = self.bsz(j) as int;
        let bk = self.bsz(k) as int;
        let d = pow2((k - j) as nat) as int;
        lemma_pow2_pos((self.po() + j) as nat);
        lemma_pow2_pos((k - j) as nat);
        lemma_pow2_adds((self.po() + j) as nat, (k - j) as nat);
        assert(bk == b * d);
        let x = p - self.lo_addr();
        let q = x / b;
        lemma_fundamental_div_mod(x, b);
        assert(q >= 0) by (nonlinear_arith)
            requires x >= 0, b > 0, x == b * q + x % b, 0 <= x % b < b;
        lemma_div_denominator(x, b, d);
        assert(x / bk == q / d);
        let y = q * b;
        assert(y >= 0 && y == q * b) by (nonlinear_arith)
            requires q >= 0, b > 0, y == q * b;
        assert(self.encl(p, j) - self.lo_addr() == y);
        lemma_div_denominator(y, b, d);
        assert(y / bk == (y / b) / d);
        lemma_div_multiples_vanish(q, b);
        assert(b * q == q * b) by (nonlinear_arith);
        assert(y / b == q);
        assert(y / bk == q / d);
        assert(self.encl(self.encl(p, j), k)
            == self.lo_addr() + (q / d) * bk);
        assert(self.encl(p, k) == self.lo_addr() + (q / d) * bk);
    }

    /// An order-`k`-aligned block that contains `p` is `p`'s enclosing
    /// order-`k` block.
    proof fn lemma_encl_of_contained(&self, p: int, m: int, k: int)
        requires
            0 <= k,
            self.lo_addr() <= m,
            (m - self.lo_addr()) % (self.bsz(k) as int) == 0,
            m <= p < m + self.bsz(k),
        ensures
            self.encl(p, k) == m,
    {
        let b = self.bsz(k) as int;
        lemma_pow2_pos((self.po() + k) as nat);
        let xm = m - self.lo_addr();
        lemma_fundamental_div_mod(xm, b);
        let qm = xm / b;
        assert(xm == b * qm);
        let x = p - self.lo_addr();
        assert(x == qm * b + (p - m)) by (nonlinear_arith)
            requires xm == b * qm, x == xm + (p - m);
        lemma_fundamental_div_mod_converse_div(x, b, qm, p - m);
        assert(x / b == qm);
        assert((x / b) * b == xm) by (nonlinear_arith)
            requires x / b == qm, xm == b * qm;
    }

    /// The zone-level buddy of an aligned block is `buddy_at`.
    proof fn lemma_buddy_eq(&self, a: int, k: int)
        requires
            self.inv_zones(),
            0 <= k <= self.mo(),
            self.lo_addr() <= a,
            (a - self.lo_addr()) % (self.bsz(k) as int) == 0,
        ensures
            self.zones@[k].spec_buddy(a) == self.buddy_at(a, k),
    {
        let z = self.zones@[k];
        let b = self.bsz(k) as int;
        assert(z.bsz() == self.bsz(k));
        assert(z.base() == self.lo_addr());
        lemma_pow2_pos((self.po() + k) as nat);
        let x = a - self.lo_addr();
        lemma_fundamental_div_mod(x, b);
        let q = x / b;
        assert(x == b * q);
        assert(q >= 0) by (nonlinear_arith)
            requires x >= 0, b > 0, x == b * q;
        lemma_div_denominator(x, b, 2);
        assert(z.pair(a) == x / (2 * b)) by {
            assert(2 * (z.bsz() as int) == 2 * b);
        }
        assert(x / (b * 2) == q / 2);
        assert(b * 2 == 2 * b) by (nonlinear_arith);
        assert(z.pair(a) == q / 2);
        lemma_fundamental_div_mod(q, 2);
        let h = q / 2;
        assert(z.pair_lo(q / 2) == self.lo_addr() + 2 * (q / 2) * b);
        if q % 2 == 0 {
            assert(q == 2 * h);
            assert(2 * h * b == b * (2 * h)) by (nonlinear_arith);
            assert(z.pair_lo(h) == self.lo_addr() + b * q);
            assert(z.pair_lo(h) == a);
            assert(z.spec_buddy(a) == z.pair_hi(h));
            assert(z.pair_hi(h) == a + b);
        } else {
            assert(q % 2 == 1);
            assert(q == 2 * h + 1);
            assert(2 * h * b == b * (2 * h)) by (nonlinear_arith);
            assert(b * (2 * h) == b * q - b) by (nonlinear_arith)
                requires q == 2 * h + 1;
            assert(z.pair_lo(h) == self.lo_addr() + b * q - b);
            assert(z.pair_lo(h) == a - b);
            assert(z.pair_lo(h) != a);
            assert(z.spec_buddy(a) == z.pair_lo(h));
        }
    }

    /// The geometry fixed at construction.
    pub open spec fn same_geom(&self, other: &Self) -> bool {
        &&& self.po() == other.po()
        &&& self.mo() == other.mo()
        &&& self.lo_addr() == other.lo_addr()
        &&& self.hi_addr() == other.hi_addr()
        &&& self.capacity_() == other.capacity_()
    }

    /// Everything of the invariant except the byte accounting and the
    /// outstanding-allocation bookkeeping.
    pub closed spec fn inv_zones(&self) -> bool {
        &&& self.zones@.len() == self.max_order + 1
        &&& self.page_order + self.max_order + 1 < usize::BITS
        &&& self.mem_start <= self.mem_end
        &&& forall|k: int| 0 <= k <= self.mo() ==> (#[trigger] self.zones@[k]).inv()
        &&& forall|k: int| 0 <= k <= self.mo()
            ==> (#[trigger] self.zones@[k]).base() == self.lo_addr()
                && self.zones@[k].ord() == k
                && self.zones@[k].pg() == self.po()
                && (self.zones@[k].is_top() <==> k == self.mo())
        &&& forall|k: int| 0 <= k <= self.mo()
            ==> pow2((self.po() + k + 1) as nat) * (#[trigger] self.zones@[k]).bits().len()
                >= self.hi_addr() - self.lo_addr()
        &&& forall|k: int, x: int| 0 <= k <= self.mo() && #[trigger] self.zone_has(k, x)
            ==> self.lo_addr() <= x && x + self.bsz(k) <= self.hi_addr()
        &&& forall|k1: int, x1: int, k2: int, x2: int|
            0 <= k1 <= self.mo() && 0 <= k2 <= self.mo()
                && #[trigger] self.zone_has(k1, x1) && #[trigger] self.zone_has(k2, x2)
                && !(k1 == k2 && x1 == x2)
            ==> x1 + self.bsz(k1) <= x2 || x2 + self.bsz(k2) <= x1
        &&& self.coalesced()
    }

    /// Every outstanding allocation is a well-placed block, and no two
    /// outstanding allocations, nor an allocation and a free block,
    /// overlap.
    pub closed spec fn inv_alloc(&self) -> bool {
        &&& forall|a: int| #[trigger] self.allocated_().dom().contains(a)
            ==> 0 <= self.allocated_()[a] <= self.mo()
                && self.lo_addr() <= a
                && a + self.bsz(self.allocated_()[a]) <= self.hi_addr()
                && (a - self.lo_addr()) % (self.bsz(self.allocated_()[a]) as int) == 0
        &&& forall|a1: int, a2: int|
            #[trigger] self.allocated_().dom().contains(a1)
                && #[trigger] self.allocated_().dom().contains(a2) && a1 != a2
            ==> a1 + self.bsz(self.allocated_()[a1]) <= a2
                || a2 + self.bsz(self.allocated_()[a2]) <= a1
        &&& forall|a: int, k: int, x: int|
            #[trigger] self.allocated_().dom().contains(a)
                && 0 <= k <= self.mo() && #[trigger] self.zone_has(k, x)
            ==> a + self.bsz(self.allocated_()[a]) <= x || x + self.bsz(k) <= a
    }

    /// Everything of the invariant except the byte accounting.
    pub open spec fn inv_core(&self) -> bool {
        &&& self.inv_zones()
        &&& self.inv_alloc()
    }

    /// The allocator's invariant: the zones are well formed and disjoint,
    /// maximally coalesced, and the seeded capacity equals the free bytes
    /// plus the outstanding allocations.
    pub closed spec fn inv(&self) -> bool {
        &&& self.inv_core()
        &&& self.capacity@ == self.free_bytes() + self.outstanding@
    }

    /// No two buddies below the top order are both free: two distinct free
    /// blocks of one order never share a pair.
    pub closed spec fn coalesced(&self) -> bool {
        forall|k: int, x1: int, x2: int|
            0 <= k < self.mo() && #[trigger] self.zone_has(k, x1)
                && #[trigger] self.zone_has(k, x2) && x1 != x2
            ==> self.zones@[k].pair(x1) != self.zones@[k].pair(x2)
    }

    /// The allocator's orders stay inside the machine word.
    pub proof fn lemma_word_bits(&self)
        requires
            self.inv(),
        ensures
            self.po() + self.mo() + 1 < usize::BITS,
            0 <= self.lo_addr() <= self.hi_addr() <= usize::MAX,
    {
    }

    /// The invariant keeps the zones maximally coalesced, and balances the
    /// seeded capacity against the free and outstanding bytes.
    pub proof fn lemma_inv_consequences(&self)
        requires
            self.inv(),
        ensures
            self.coalesced(),
            self.capacity_() == self.free_bytes() + self.outstanding_(),
    {
    }

    /// A free block of order `k` is aligned to its size within the region.
    proof fn lemma_member_facts(&self, k: int, x: int)
        requires
            self.inv_zones(),
            0 <= k <= self.mo(),
            self.zone_has(k, x),
        ensures
            self.zones@[k].aligned(x),
            self.zones@[k].pair(x) < self.zones@[k].bits().len(),
            self.lo_addr() <= x,
            x + self.bsz(k) <= self.hi_addr(),
    {
        let z = self.zones@[k];
        let j = choose|j: int| 0 <= j < z.list().len() && z.list()[j] == x;
        assert(z.aligned(z.list()[j] as int));
        assert(z.pair(z.list()[j] as int) < z.bits().len());
    }

    /// Changing one zone's free-list length changes the free-byte sum by
    /// the difference times the block size.
    proof fn lemma_fb_update(
        zs1: Seq<BuddyBlockAllocatorZone>,
        zs2: Seq<BuddyBlockAllocatorZone>,
        po: nat,
        n: int,
        k: int,
    )
        requires
            zs1.len() == zs2.len(),
            0 <= k < zs1.len(),
            forall|j: int| 0 <= j < zs1.len() && j != k
                ==> (#[trigger] zs2[j]).list().len() == zs1[j].list().len(),
            n <= zs1.len(),
        ensures
            Self::fb_upto(zs2, po, n) == Self::fb_upto(zs1, po, n)
                + if k < n {
                    (zs2[k].list().len() - zs1[k].list().len()) * pow2((po + k) as nat)
                } else {
                    0
                },
        decreases n,
    {
        if n > 0 {
            Self::lemma_fb_update(zs1, zs2, po, n - 1, k);
            if k == n - 1 {
                let a = zs1[k].list().len() as int;
                let b = zs2[k].list().len() as int;
                let p = pow2((po + k) as nat) as int;
                assert(b * p == a * p + (b - a) * p) by (nonlinear_arith);
            }
        }
    }

    /// An address divisible by twice the block size is the low member of
    /// its pair in zone `k`.
    proof fn lemma_even_is_lo(&self, k: int, a: int)
        requires
            self.inv_zones(),
            0 <= k <= self.mo(),
            self.lo_addr() <= a,
            (a - self.lo_addr()) % (2 * self.zones@[k].bsz() as int) == 0,
        ensures
            self.zones@[k].aligned(a),
            a == self.zones@[k].pair_lo(self.zones@[k].pair(a)),
            self.zones@[k].spec_buddy(a) == a + self.zones@[k].bsz(),
    {
        let z = self.zones@[k];
        let b = z.bsz() as int;
        let o = a - self.lo_addr();
        lemma_pow2_pos(z.pg() + z.ord());
        lemma_fundamental_div_mod(o, 2 * b);
        let i = o / (2 * b);
        assert(o == (2 * b) * i);
        assert(o == 2 * i * b) by (nonlinear_arith)
            requires o == (2 * b) * i;
        assert(o % b == 0) by {
            assert(o == (2 * i) * b) by (nonlinear_arith)
                requires o == 2 * i * b;
            lemma_fundamental_div_mod_converse_mod(o, b, 2 * i, 0);
        }
        assert(z.aligned(a));
        assert(i >= 0) by {
            vstd::arithmetic::div_mod::lemma_div_pos_is_pos(o, 2 * b);
        }
        z.lemma_pair_member_facts(i);
        assert(a == z.pair_lo(i));
        assert(z.pair(a) == i);
    }

    /// Preconditions of the zone-level free, derived from the allocator's
    /// invariant and the caller's obligations.
    proof fn lemma_free_prep(&self, k: int, a: int)
        requires
            self.inv_zones(),
            0 <= k <= self.mo(),
            self.lo_addr() <= a,
            (a - self.lo_addr()) % (self.bsz(k) as int) == 0,
            a + self.bsz(k) <= self.hi_addr(),
            self.range_free(a, k),
        ensures
            self.zones@[k].geom_wf(),
            self.zones@[k].aligned(a),
            0 <= self.zones@[k].pair(a) < self.zones@[k].bits().len(),
            !mem(self.zones@[k].list(), a),
            a + self.zones@[k].bsz() <= usize::MAX,
            self.zones@[k].bsz() == self.bsz(k),
    {
        let z = self.zones@[k];
        let b = z.bsz() as int;
        lemma_pow2_pos(z.pg() + z.ord());
        assert(z.aligned(a));
        assert(0 <= z.pair(a)) by {
            vstd::arithmetic::div_mod::lemma_div_pos_is_pos(a - self.lo_addr(), 2 * b);
        }
        assert(z.pair(a) < z.bits().len()) by {
            let cover = pow2((self.po() + k + 1) as nat) as int;
            assert(cover == 2 * b) by {
                lemma_pow2_adds((self.po() + k) as nat, 1);
                vstd::arithmetic::power2::lemma2_to64();
            }
            assert(a - self.lo_addr() < cover * z.bits().len());
            vstd::arithmetic::div_mod::lemma_multiply_divide_lt(
                a - self.lo_addr(), 2 * b, z.bits().len() as int);
        }
        if mem(z.list(), a) {
            assert(self.zone_has(k, a));
            assert(a + self.bsz(k) <= a || a + self.bsz(k) <= a);
            assert(false);
        }
    }

    /// After pushing `a` into zone `k` (its buddy was not free), the
    /// invariant core holds again and the free bytes grew by one block.
    proof fn reestablish_after_give(
        &self,
        pre: Self,
        k: int,
        a: int,
        zfin: BuddyBlockAllocatorZone,
    )
        requires
            pre.inv_zones(),
            0 <= k <= pre.mo(),
            pre.lo_addr() <= a,
            (a - pre.lo_addr()) % (pre.bsz(k) as int) == 0,
            a + pre.bsz(k) <= pre.hi_addr(),
            pre.range_free(a, k),
            zfin.inv(),
            zfin.same_geom(&pre.zones@[k]),
            zfin.list() == pre.zones@[k].list().push(a as usize),
            k < pre.mo() ==> !mem(pre.zones@[k].list(), pre.zones@[k].spec_buddy(a)),
            self.zones@ == pre.zones@.update(k, zfin),
            self.page_order == pre.page_order,
            self.max_order == pre.max_order,
            self.mem_start == pre.mem_start,
            self.mem_end == pre.mem_end,
            0 <= a <= usize::MAX,
        ensures
            self.inv_zones(),
            forall|k2: int, x: int| 0 <= k2 <= self.mo()
                ==> (#[trigger] self.zone_has(k2, x)
                    <==> (pre.zone_has(k2, x) || (k2 == k && x == a))),
            self.free_bytes() == pre.free_bytes() + pre.bsz(k),
            forall|b: int| pre.all_below(b) && a + pre.bsz(k) <= b ==> self.all_below(b),
    {
        let zpre = pre.zones@[k];
        assert forall|k2: int, x: int| 0 <= k2 <= self.mo()
            implies (#[trigger] self.zone_has(k2, x)
                <==> (pre.zone_has(k2, x) || (k2 == k && x == a))) by {
            if k2 == k {
                lemma_push_mem(zpre.list(), a as usize, x);
            }
        }
        // no block anywhere was already at address a
        assert forall|k2: int| 0 <= k2 <= pre.mo() implies !pre.zone_has(k2, a) by {
            if pre.zone_has(k2, a) {
                lemma_pow2_pos((pre.po() + k2) as nat);
                lemma_pow2_pos((pre.po() + k) as nat);
                assert(a + pre.bsz(k2) <= a || a + pre.bsz(k) <= a);
                assert(false);
            }
        }
        // region bounds
        assert forall|k2: int, x: int| 0 <= k2 <= self.mo() && #[trigger] self.zone_has(k2, x)
            implies self.lo_addr() <= x && x + self.bsz(k2) <= self.hi_addr() by {
            if !(k2 == k && x == a) {
                assert(pre.zone_has(k2, x));
            }
        }
        // disjointness
        assert forall|k1: int, x1: int, k2: int, x2: int|
            0 <= k1 <= self.mo() && 0 <= k2 <= self.mo()
                && #[trigger] self.zone_has(k1, x1) && #[trigger] self.zone_has(k2, x2)
                && !(k1 == k2 && x1 == x2)
            implies x1 + self.bsz(k1) <= x2 || x2 + self.bsz(k2) <= x1 by {
            if k1 == k && x1 == a {
                assert(pre.zone_has(k2, x2));
                assert(x2 + pre.bsz(k2) <= a || a + pre.bsz(k) <= x2);
            } else if k2 == k && x2 == a {
                assert(pre.zone_has(k1, x1));
                assert(x1 + pre.bsz(k1) <= a || a + pre.bsz(k) <= x1);
            } else {
                assert(pre.zone_has(k1, x1) && pre.zone_has(k2, x2));
            }
        }
        // coalescing: a new block shares its pair with no other free block
        assert forall|kc: int, x1: int, x2: int|
            0 <= kc < self.mo() && #[trigger] self.zone_has(kc, x1)
                && #[trigger] self.zone_has(kc, x2) && x1 != x2
            implies self.zones@[kc].pair(x1) != self.zones@[kc].pair(x2) by {
            if kc == k && (x1 == a || x2 == a) {
                let other = if x1 == a { x2 } else { x1 };
                assert(pre.zone_has(k, other));
                pre.lemma_member_facts(k, other);
                if zpre.pair(other) == zpre.pair(a) {
                    zpre.lemma_pair_members(a);
                    zpre.lemma_pair_members(other);
                    assert(other == zpre.spec_buddy(a));
                    assert(false);
                }
            } else {
                assert(pre.zone_has(kc, x1) && pre.zone_has(kc, x2));
            }
        }
        // free bytes
        assert(self.free_bytes() == pre.free_bytes() + pre.bsz(k)) by {
            Self::lemma_fb_update(pre.zones@, self.zones@, pre.po(), pre.mo() as int + 1, k);
            let d = (zfin.list().len() - zpre.list().len()) as int;
            assert(d == 1);
            assert(1 * (pre.bsz(k) as int) == pre.bsz(k) as int);
        }
        assert forall|b: int| pre.all_below(b) && a + pre.bsz(k) <= b
            implies self.all_below(b) by {
            assert forall|k2: int, x: int| 0 <= k2 <= self.mo() && #[trigger] self.zone_has(k2, x)
                implies x + self.bsz(k2) <= b by {
                if !(k2 == k && x == a) {
                    assert(pre.zone_has(k2, x));
                }
            }
        }
    }

    /// After popping `a` from zone `k`, the invariant core holds again;
    /// the block is aligned, inside the region, and overlaps no free block.
    proof fn reestablish_after_take(
        &self,
        pre: Self,
        k: int,
        a: int,
        zfin: BuddyBlockAllocatorZone,
    )
        requires
            pre.inv_zones(),
            0 <= k <= pre.mo(),
            pre.zone_has(k, a),
            zfin.inv(),
            zfin.same_geom(&pre.zones@[k]),
            pre.zones@[k].list().len() > 0,
            a == pre.zones@[k].list().last(),
            zfin.list() == pre.zones@[k].list().drop_last(),
            self.zones@ == pre.zones@.update(k, zfin),
            self.page_order == pre.page_order,
            self.max_order == pre.max_order,
            self.mem_start == pre.mem_start,
            self.mem_end == pre.mem_end,
        ensures
            self.inv_zones(),
            forall|k2: int, x: int| 0 <= k2 <= self.mo()
                ==> (#[trigger] self.zone_has(k2, x)
                    <==> (pre.zone_has(k2, x) && !(k2 == k && x == a))),
            self.free_bytes() == pre.free_bytes() - pre.bsz(k),
            self.range_free(a, k),
            pre.lo_addr() <= a && a + pre.bsz(k) <= pre.hi_addr(),
            (a - pre.lo_addr()) % (pre.bsz(k) as int) == 0,
            forall|b: int| pre.all_below(b) ==> self.all_below(b),
    {
        let zpre = pre.zones@[k];
        pre.lemma_member_facts(k, a);
        assert forall|k2: int, x: int| 0 <= k2 <= self.mo()
            implies (#[trigger] self.zone_has(k2, x)
                <==> (pre.zone_has(k2, x) && !(k2 == k && x == a))) by {
            if k2 == k {
                lemma_drop_last_mem(zpre.list(), x);
            }
        }
        assert forall|k2: int, x: int| 0 <= k2 <= self.mo() && #[trigger] self.zone_has(k2, x)
            implies self.lo_addr() <= x && x + self.bsz(k2) <= self.hi_addr() by {
            assert(pre.zone_has(k2, x));
        }
        assert forall|k1: int, x1: int, k2: int, x2: int|
            0 <= k1 <= self.mo() && 0 <= k2 <= self.mo()
                && #[trigger] self.zone_has(k1, x1) && #[trigger] self.zone_has(k2, x2)
                && !(k1 == k2 && x1 == x2)
            implies x1 + self.bsz(k1) <= x2 || x2 + self.bsz(k2) <= x1 by {
            assert(pre.zone_has(k1, x1) && pre.zone_has(k2, x2));
        }
        assert forall|kc: int, x1: int, x2: int|
            0 <= kc < self.mo() && #[trigger] self.zone_has(kc, x1)
                && #[trigger] self.zone_has(kc, x2) && x1 != x2
            implies self.zones@[kc].pair(x1) != self.zones@[kc].pair(x2) by {
            assert(pre.zone_has(kc, x1) && pre.zone_has(kc, x2));
            assert(pre.zones@[kc].pair(x1) != pre.zones@[kc].pair(x2));
        }
        // the popped block overlaps no remaining free block
        assert forall|k2: int, x: int| 0 <= k2 <= self.mo() && #[trigger] self.zone_has(k2, x)
            implies x + self.bsz(k2) <= a || a + self.bsz(k) <= x by {
            assert(pre.zone_has(k2, x));
            assert(!(k2 == k && x == a));
        }
        assert(self.free_bytes() == pre.free_bytes() - pre.bsz(k)) by {
            Self::lemma_fb_update(pre.zones@, self.zones@, pre.po(), pre.mo() as int + 1, k);
            let d = (zfin.list().len() - zpre.list().len()) as int;
            assert(d == -1);
            assert((-1) * (pre.bsz(k) as int) == -(pre.bsz(k) as int));
        }
        assert forall|b: int| pre.all_below(b) implies self.all_below(b) by {
            assert forall|k2: int, x: int| 0 <= k2 <= self.mo() && #[trigger] self.zone_has(k2, x)
                implies x + self.bsz(k2) <= b by {
                assert(pre.zone_has(k2, x));
            }
        }
    }

    /// After removing the buddy of `a` from zone `k`, the invariant core
    /// holds; the merged block of the next order is aligned, inside the
    /// region, and overlaps no free block.
    proof fn reestablish_after_merge(
        &self,
        pre: Self,
        k: int,
        a: int,
        m: int,
        zfin: BuddyBlockAllocatorZone,
    )
        requires
            pre.inv_zones(),
            0 <= k < pre.mo(),
            pre.lo_addr() <= a,
            (a - pre.lo_addr()) % (pre.bsz(k) as int) == 0,
            a + pre.bsz(k) <= pre.hi_addr(),
            pre.range_free(a, k),
            zfin.inv(),
            zfin.same_geom(&pre.zones@[k]),
            mem(pre.zones@[k].list(), pre.zones@[k].spec_buddy(a)),
            forall|x: int| mem(zfin.list(), x)
                <==> (mem(pre.zones@[k].list(), x) && x != pre.zones@[k].spec_buddy(a)),
            zfin.list().len() == pre.zones@[k].list().len() - 1,
            m == pre.zones@[k].pair_lo(pre.zones@[k].pair(a)),
            self.zones@ == pre.zones@.update(k, zfin),
            self.page_order == pre.page_order,
            self.max_order == pre.max_order,
            self.mem_start == pre.mem_start,
            self.mem_end == pre.mem_end,
        ensures
            self.inv_zones(),
            forall|k2: int, x: int| 0 <= k2 <= self.mo()
                ==> (#[trigger] self.zone_has(k2, x)
                    <==> (pre.zone_has(k2, x)
                        && !(k2 == k && x == pre.zones@[k].spec_buddy(a)))),
            self.free_bytes() == pre.free_bytes() - pre.bsz(k),
            self.lo_addr() <= m,
            (m - self.lo_addr()) % (self.bsz(k + 1) as int) == 0,
            m + self.bsz(k + 1) <= self.hi_addr(),
            self.range_free(m, k + 1),
            m + self.bsz(k + 1) == (if a <= pre.zones@[k].spec_buddy(a) {
                pre.zones@[k].spec_buddy(a)
            } else {
                a
            }) + pre.bsz(k),
            forall|b: int| pre.all_below(b) ==> self.all_below(b),
    {
        let zpre = pre.zones@[k];
        let buddy = zpre.spec_buddy(a);
        let i = zpre.pair(a);
        assert(zpre.aligned(a));
        zpre.lemma_pair_members(a);
        zpre.lemma_pair_member_facts(i);
        pre.lemma_member_facts(k, buddy);
        assert forall|k2: int, x: int| 0 <= k2 <= self.mo()
            implies (#[trigger] self.zone_has(k2, x)
                <==> (pre.zone_has(k2, x) && !(k2 == k && x == buddy))) by {}
        assert forall|k2: int, x: int| 0 <= k2 <= self.mo() && #[trigger] self.zone_has(k2, x)
            implies self.lo_addr() <= x && x + self.bsz(k2) <= self.hi_addr() by {
            assert(pre.zone_has(k2, x));
        }
        assert forall|k1: int, x1: int, k2: int, x2: int|
            0 <= k1 <= self.mo() && 0 <= k2 <= self.mo()
                && #[trigger] self.zone_has(k1, x1) && #[trigger] self.zone_has(k2, x2)
                && !(k1 == k2 && x1 == x2)
            implies x1 + self.bsz(k1) <= x2 || x2 + self.bsz(k2) <= x1 by {
            assert(pre.zone_has(k1, x1) && pre.zone_has(k2, x2));
        }
        assert forall|kc: int, x1: int, x2: int|
            0 <= kc < self.mo() && #[trigger] self.zone_has(kc, x1)
                && #[trigger] self.zone_has(kc, x2) && x1 != x2
            implies self.zones@[kc].pair(x1) != self.zones@[kc].pair(x2) by {
            assert(pre.zone_has(kc, x1) && pre.zone_has(kc, x2));
            assert(pre.zones@[kc].pair(x1) != pre.zones@[kc].pair(x2));
        }
        assert(self.free_bytes() == pre.free_bytes() - pre.bsz(k)) by {
            Self::lemma_fb_update(pre.zones@, self.zones@, pre.po(), pre.mo() as int + 1, k);
            let d = (zfin.list().len() - zpre.list().len()) as int;
            assert(d == -1);
            assert((-1) * (pre.bsz(k) as int) == -(pre.bsz(k) as int));
        }
        // the merged block: m == pair_lo(i), covering both a and the buddy
        let b = zpre.bsz() as int;
        assert(m == self.lo_addr() + 2 * i * b);
        assert(i >= 0);
        assert(2 * i * b >= 0) by (nonlinear_arith)
            requires i >= 0, b > 0;
        assert((m - self.lo_addr()) % (2 * b) == 0) by {
            assert(2 * i * b == i * (2 * b)) by (nonlinear_arith);
            lemma_fundamental_div_mod_converse_mod(2 * i * b, 2 * b, i, 0);
        }
        assert(self.bsz(k + 1) == 2 * b) by {
            lemma_pow2_adds((pre.po() + k) as nat, 1);
            vstd::arithmetic::power2::lemma2_to64();
        }
        assert(m + 2 * b == (if a <= buddy { buddy } else { a }) + b) by {
            assert(a == zpre.pair_lo(i) || a == zpre.pair_hi(i));
        }
        assert(m + self.bsz(k + 1) <= self.hi_addr()) by {
            assert(buddy + b <= self.hi_addr());
            assert(a + b <= self.hi_addr());
        }
        // the merged range overlaps no remaining free block
        assert(pre.zone_has(k, buddy));
        assert(buddy == a + b || buddy == a - b) by {
            assert(a == zpre.pair_lo(i) || a == zpre.pair_hi(i));
        }
        assert forall|k2: int, x: int| 0 <= k2 <= self.mo() && #[trigger] self.zone_has(k2, x)
            implies x + self.bsz(k2) <= m || m + self.bsz(k + 1) <= x by {
            lemma_pow2_pos((pre.po() + k2) as nat);
            assert(pre.zone_has(k2, x));
            assert(x + pre.bsz(k2) <= a || a + pre.bsz(k) <= x);
            assert(!(k2 == k && x == buddy));
            assert(x + pre.bsz(k2) <= buddy || buddy + pre.bsz(k) <= x);
            assert(m == a || m == buddy);
            assert(m + 2 * b == a + b || m + 2 * b == buddy + b);
        }
        assert forall|bnd: int| pre.all_below(bnd) implies self.all_below(bnd) by {
            assert forall|k2: int, x: int| 0 <= k2 <= self.mo() && #[trigger] self.zone_has(k2, x)
                implies x + self.bsz(k2) <= bnd by {
                assert(pre.zone_has(k2, x));
            }
        }
    }

    /// Dropping an entry from the outstanding-allocation map keeps the
    /// invariant and changes nothing else.
    proof fn lemma_remove_entry_keeps(&self, b: Self, x: int)
        requires
            self.inv(),
            b.zones == self.zones,
            b.page_order == self.page_order,
            b.max_order == self.max_order,
            b.mem_start == self.mem_start,
            b.mem_end == self.mem_end,
            b.capacity == self.capacity,
            b.outstanding == self.outstanding,
            b.allocated@ == self.allocated@.remove(x),
        ensures
            b.inv(),
            b.free_bytes() == self.free_bytes(),
            forall|k: int, y: int| #[trigger] b.zone_has(k, y) <==> self.zone_has(k, y),
    {
        Self::lemma_core_transfer(*self, b);
        assert forall|a: int| #[trigger] b.allocated_().dom().contains(a)
            implies 0 <= b.allocated_()[a] <= b.mo()
                && b.lo_addr() <= a
                && a + b.bsz(b.allocated_()[a]) <= b.hi_addr()
                && (a - b.lo_addr()) % (b.bsz(b.allocated_()[a]) as int) == 0 by {
            assert(self.allocated_().dom().contains(a));
        }
        assert forall|a1: int, a2: int|
            #[trigger] b.allocated_().dom().contains(a1)
                && #[trigger] b.allocated_().dom().contains(a2) && a1 != a2
            implies a1 + b.bsz(b.allocated_()[a1]) <= a2
                || a2 + b.bsz(b.allocated_()[a2]) <= a1 by {
            assert(self.allocated_().dom().contains(a1));
            assert(self.allocated_().dom().contains(a2));
        }
        assert forall|a: int, k: int, y: int|
            #[trigger] b.allocated_().dom().contains(a)
                && 0 <= k <= b.mo() && #[trigger] b.zone_has(k, y)
            implies a + b.bsz(b.allocated_()[a]) <= y || y + b.bsz(k) <= a by {
            assert(self.allocated_().dom().contains(a));
            assert(self.zone_has(k, y));
        }
    }

    /// The allocation bookkeeping after taking the free block `a` of
    /// order `k` out of the zones and into the outstanding map.
    proof fn prove_inv_alloc_after_take(&self, pre: Self, k: int, a: int)
        requires
            pre.inv(),
            0 <= k <= pre.mo(),
            pre.zone_has(k, a),
            self.allocated@ == pre.allocated@.insert(a, k),
            self.page_order == pre.page_order,
            self.max_order == pre.max_order,
            self.mem_start == pre.mem_start,
            self.mem_end == pre.mem_end,
            forall|k2: int, x: int| 0 <= k2 <= self.mo()
                ==> (#[trigger] self.zone_has(k2, x)
                    <==> (pre.zone_has(k2, x) && !(k2 == k && x == a))),
        ensures
            self.inv_alloc(),
            forall|x: int| #[trigger] pre.allocated_().dom().contains(x)
                ==> x + pre.bsz(pre.allocated_()[x]) <= a || a + pre.bsz(k) <= x,
    {
        pre.lemma_member_facts(k, a);
        assert forall|x: int| #[trigger] pre.allocated_().dom().contains(x)
            implies x + pre.bsz(pre.allocated_()[x]) <= a || a + pre.bsz(k) <= x by {
            assert(pre.zone_has(k, a));
        }
        assert forall|y: int| #[trigger] self.allocated_().dom().contains(y)
            implies 0 <= self.allocated_()[y] <= self.mo()
                && self.lo_addr() <= y
                && y + self.bsz(self.allocated_()[y]) <= self.hi_addr()
                && (y - self.lo_addr()) % (self.bsz(self.allocated_()[y]) as int) == 0 by {
            if y != a {
                assert(pre.allocated_().dom().contains(y));
            }
        }
        assert forall|a1: int, a2: int|
            #[trigger] self.allocated_().dom().contains(a1)
                && #[trigger] self.allocated_().dom().contains(a2) && a1 != a2
            implies a1 + self.bsz(self.allocated_()[a1]) <= a2
                || a2 + self.bsz(self.allocated_()[a2]) <= a1 by {
            if a1 != a && a2 != a {
                assert(pre.allocated_().dom().contains(a1));
                assert(pre.allocated_().dom().contains(a2));
            } else {
                let other = if a1 == a { a2 } else { a1 };
                assert(pre.allocated_().dom().contains(other));
            }
        }
        assert forall|y: int, k2: int, x: int|
            #[trigger] self.allocated_().dom().contains(y)
                && 0 <= k2 <= self.mo() && #[trigger] self.zone_has(k2, x)
            implies y + self.bsz(self.allocated_()[y]) <= x || x + self.bsz(k2) <= y by {
            assert(pre.zone_has(k2, x));
            if y == a {
                assert(!(k2 == k && x == a));
                assert(pre.zone_has(k, a));
            } else {
                assert(pre.allocated_().dom().contains(y));
            }
        }
    }

    /// The allocation bookkeeping after pushing the block `a` of order `k`
    /// back into the zones; it no longer stands in the outstanding map.
    proof fn prove_inv_alloc_after_give(&self, pre: Self, k: int, a: int)
        requires
            pre.inv(),
            0 <= k <= pre.mo(),
            self.allocated@ == pre.allocated@,
            self.page_order == pre.page_order,
            self.max_order == pre.max_order,
            self.mem_start == pre.mem_start,
            self.mem_end == pre.mem_end,
            forall|x: int| #[trigger] pre.allocated_().dom().contains(x)
                ==> x + pre.bsz(pre.allocated_()[x]) <= a || a + pre.bsz(k) <= x,
            forall|k2: int, x: int| 0 <= k2 <= self.mo()
                ==> (#[trigger] self.zone_has(k2, x)
                    <==> (pre.zone_has(k2, x) || (k2 == k && x == a))),
        ensures
            self.inv_alloc(),
    {
        assert forall|y: int| #[trigger] self.allocated_().dom().contains(y)
            implies 0 <= self.allocated_()[y] <= self.mo()
                && self.lo_addr() <= y
                && y + self.bsz(self.allocated_()[y]) <= self.hi_addr()
                && (y - self.lo_addr()) % (self.bsz(self.allocated_()[y]) as int) == 0 by {
            assert(pre.allocated_().dom().contains(y));
        }
        assert forall|a1: int, a2: int|
            #[trigger] self.allocated_().dom().contains(a1)
                && #[trigger] self.allocated_().dom().contains(a2) && a1 != a2
            implies a1 + self.bsz(self.allocated_()[a1]) <= a2
                || a2 + self.bsz(self.allocated_()[a2]) <= a1 by {
            assert(pre.allocated_().dom().contains(a1));
            assert(pre.allocated_().dom().contains(a2));
        }
        assert forall|y: int, k2: int, x: int|
            #[trigger] self.allocated_().dom().contains(y)
                && 0 <= k2 <= self.mo() && #[trigger] self.zone_has(k2, x)
            implies y + self.bsz(self.allocated_()[y]) <= x || x + self.bsz(k2) <= y by {
            assert(pre.allocated_().dom().contains(y));
            if !(k2 == k && x == a) {
                assert(pre.zone_has(k2, x));
            }
        }
    }

    /// The allocation bookkeeping after freeing the zones of the buddy of
    /// `a`: the outstanding map is unchanged and the free set shrank.
    proof fn prove_inv_alloc_after_shrink(&self, pre: Self)
        requires
            pre.inv(),
            self.allocated@ == pre.allocated@,
            self.page_order == pre.page_order,
            self.max_order == pre.max_order,
            self.mem_start == pre.mem_start,
            self.mem_end == pre.mem_end,
            forall|k2: int, x: int| 0 <= k2 <= self.mo() && #[trigger] self.zone_has(k2, x)
                ==> pre.zone_has(k2, x),
        ensures
            self.inv_alloc(),
    {
        assert forall|y: int| #[trigger] self.allocated_().dom().contains(y)
            implies 0 <= self.allocated_()[y] <= self.mo()
                && self.lo_addr() <= y
                && y + self.bsz(self.allocated_()[y]) <= self.hi_addr()
                && (y - self.lo_addr()) % (self.bsz(self.allocated_()[y]) as int) == 0 by {
            assert(pre.allocated_().dom().contains(y));
        }
        assert forall|a1: int, a2: int|
            #[trigger] self.allocated_().dom().contains(a1)
                && #[trigger] self.allocated_().dom().contains(a2) && a1 != a2
            implies a1 + self.bsz(self.allocated_()[a1]) <= a2
                || a2 + self.bsz(self.allocated_()[a2]) <= a1 by {
            assert(pre.allocated_().dom().contains(a1));
            assert(pre.allocated_().dom().contains(a2));
        }
        assert forall|y: int, k2: int, x: int|
            #[trigger] self.allocated_().dom().contains(y)
                && 0 <= k2 <= self.mo() && #[trigger] self.zone_has(k2, x)
            implies y + self.bsz(self.allocated_()[y]) <= x || x + self.bsz(k2) <= y by {
            assert(pre.allocated_().dom().contains(y));
            assert(pre.zone_has(k2, x));
        }
    }

    /// The allocation bookkeeping after splitting the order-`k+1` block at
    /// `lower`: its upper half `higher` is outstanding, its lower half is
    /// free at order `k`.
    proof fn prove_inv_alloc_after_split(&self, mid: Self, k: int, lower: int, higher: int)
        requires
            mid.inv(),
            0 <= k < mid.mo(),
            mid.allocated_().dom().contains(lower),
            mid.allocated_()[lower] == k + 1,
            self.allocated@ == mid.allocated@.remove(lower).insert(higher, k),
            self.page_order == mid.page_order,
            self.max_order == mid.max_order,
            self.mem_start == mid.mem_start,
            self.mem_end == mid.mem_end,
            higher == lower + mid.bsz(k),
            mid.bsz(k + 1) == 2 * mid.bsz(k),
            (lower - mid.lo_addr()) % (mid.bsz(k) as int) == 0,
            forall|k2: int, x: int| 0 <= k2 <= self.mo()
                ==> (#[trigger] self.zone_has(k2, x)
                    <==> (mid.zone_has(k2, x) || (k2 == k && x == lower))),
        ensures
            self.inv_alloc(),
    {
        let b = mid.bsz(k) as int;
        lemma_pow2_pos((mid.po() + k) as nat);
        assert(mid.lo_addr() <= lower && lower + 2 * b <= mid.hi_addr());
        assert((higher - mid.lo_addr()) % b == 0) by {
            lemma_mod_add_sub(lower - mid.lo_addr(), b, b);
            lemma_fundamental_div_mod_converse_mod(b, b, 1, 0);
        }
        assert forall|y: int| #[trigger] self.allocated_().dom().contains(y)
            implies 0 <= self.allocated_()[y] <= self.mo()
                && self.lo_addr() <= y
                && y + self.bsz(self.allocated_()[y]) <= self.hi_addr()
                && (y - self.lo_addr()) % (self.bsz(self.allocated_()[y]) as int) == 0 by {
            if y != higher {
                assert(mid.allocated_().dom().contains(y));
            }
        }
        assert forall|a1: int, a2: int|
            #[trigger] self.allocated_().dom().contains(a1)
                && #[trigger] self.allocated_().dom().contains(a2) && a1 != a2
            implies a1 + self.bsz(self.allocated_()[a1]) <= a2
                || a2 + self.bsz(self.allocated_()[a2]) <= a1 by {
            if a1 != higher && a2 != higher {
                assert(mid.allocated_().dom().contains(a1));
                assert(mid.allocated_().dom().contains(a2));
            } else {
                let other = if a1 == higher { a2 } else { a1 };
                assert(mid.allocated_().dom().contains(other));
                assert(other != lower);
                assert(mid.allocated_().dom().contains(lower));
                assert(other + mid.bsz(mid.allocated_()[other]) <= lower
                    || lower + mid.bsz(k + 1) <= other);
            }
        }
        assert forall|y: int, k2: int, x: int|
            #[trigger] self.allocated_().dom().contains(y)
                && 0 <= k2 <= self.mo() && #[trigger] self.zone_has(k2, x)
            implies y + self.bsz(self.allocated_()[y]) <= x || x + self.bsz(k2) <= y by {
            if y == higher {
                if k2 == k && x == lower {
                } else {
                    assert(mid.zone_has(k2, x));
                    assert(mid.allocated_().dom().contains(lower));
                    assert(lower + mid.bsz(k + 1) <= x || x + mid.bsz(k2) <= lower);
                }
            } else {
                assert(mid.allocated_().dom().contains(y));
                assert(y != lower);
                if k2 == k && x == lower {
                    assert(mid.allocated_().dom().contains(lower));
                    assert(y + mid.bsz(mid.allocated_()[y]) <= lower
                        || lower + mid.bsz(k + 1) <= y);
                } else {
                    assert(mid.zone_has(k2, x));
                }
            }
        }
    }

    /// Allocates a block of order `order`: a range of `pow2(po() + order)`
    /// bytes, aligned to its size within the region, overlapping no free
    /// block. The free bytes shrink by exactly the block size.
    pub fn allocate(&mut self, order: usize) -> (r: Result<usize, AllocErr>)
        requires
            old(self).inv(),
            order <= old(self).mo(),
        ensures
            final(self).inv(),
            final(self).same_geom(old(self)),
            match r {
                Ok(a) => {
                    &&& old(self).lo_addr() <= a
                    &&& a + old(self).bsz(order as int) <= old(self).hi_addr()
                    &&& (a - old(self).lo_addr()) % (old(self).bsz(order as int) as int) == 0
                    &&& final(self).range_free(a as int, order as int)
                    &&& final(self).free_bytes()
                        == old(self).free_bytes() - old(self).bsz(order as int)
                    &&& final(self).outstanding_()
                        == old(self).outstanding_() + old(self).bsz(order as int)
                    &&& forall|b: int| old(self).all_below(b) ==> final(self).all_below(b)
                    &&& a + old(self).bsz(order as int) <= usize::MAX
                    &&& forall|b: int| old(self).all_below(b)
                        ==> a + old(self).bsz(order as int) <= b
                    &&& !old(self).allocated_().dom().contains(a as int)
                    &&& final(self).allocated_()
                        == old(self).allocated_().insert(a as int, order as int)
                    &&& forall|x: int| #[trigger] old(self).allocated_().dom().contains(x)
                        ==> x + old(self).bsz(old(self).allocated_()[x]) <= a
                            || a + old(self).bsz(order as int) <= x
                    &&& ((order as int) < old(self).mo()
                        && !(exists|x: int| old(self).zone_has(order as int, x))
                        ==> final(self).zone_has(
                            order as int, a - old(self).bsz(order as int)))
                },
                Err(_) => {
                    &&& final(self).free_bytes() == old(self).free_bytes()
                    &&& final(self).outstanding_() == old(self).outstanding_()
                    &&& final(self).allocated_() == old(self).allocated_()
                    &&& forall|k2: int, x: int| 0 <= k2 <= old(self).mo()
                        ==> (final(self).zone_has(k2, x) <==> old(self).zone_has(k2, x))
                    &&& forall|k2: int, x: int| order <= k2 <= old(self).mo()
                        ==> !old(self).zone_has(k2, x)
                },
            },
        decreases old(self).mo() - order,
    {
        let ghost pre = *self;
        if !self.zones[order].list_is_empty() {
            let mut z = self.zones.remove(order);
            let res = z.allocate();
            let ghost zfin = z;
            self.zones.insert(order, z);
            proof {
                lemma_remove_insert(pre.zones@, order as int, zfin);
                assert(self.zones@ =~= pre.zones@.update(order as int, zfin));
            }
            match res {
                Ok(a) => {
                    self.outstanding = Ghost(self.outstanding@ + pow2((pre.po() + order) as nat));
                    self.allocated = Ghost(self.allocated@.insert(a as int, order as int));
                    proof {
                        assert(pre.zone_has(order as int, a as int)) by {
                            let l = pre.zones@[order as int].list();
                            assert(l[l.len() - 1] == a);
                        }
                        self.reestablish_after_take(pre, order as int, a as int, zfin);
                        assert(a as int + pre.bsz(order as int) <= pre.hi_addr());
                        assert forall|bnd: int| pre.all_below(bnd)
                            implies a as int + pre.bsz(order as int) <= bnd by {
                            assert(pre.zone_has(order as int, a as int));
                        }
                        lemma_pow2_pos((pre.po() + order) as nat);
                        assert(!pre.allocated_().dom().contains(a as int)) by {
                            if pre.allocated_().dom().contains(a as int) {
                                assert(pre.zone_has(order as int, a as int));
                                lemma_pow2_pos(
                                    (pre.po() + pre.allocated_()[a as int]) as nat);
                                assert(false);
                            }
                        }
                        self.prove_inv_alloc_after_take(pre, order as int, a as int);
                        assert(pre.zone_has(order as int, a as int));
                    }
                    Ok(a)
                },
                Err(e) => {
                    proof {
                        assert(false);
                    }
                    Err(e)
                },
            }
        } else if order < self.max_order {
            let res = self.allocate(order + 1);
            match res {
                Ok(lower) => {
                    let ghost mid = *self;
                    proof {
                        let z = mid.zones@[order as int];
                        let b2 = 2 * z.bsz() as int;
                        assert(mid.bsz(order as int + 1) == b2) by {
                            lemma_pow2_adds((mid.po() + order) as nat, 1);
                            vstd::arithmetic::power2::lemma2_to64();
                        }
                        mid.lemma_even_is_lo(order as int, lower as int);
                        mid.lemma_free_prep(order as int, lower as int);
                    }
                    let higher = self.zones[order].get_ptr_buddy(lower);
                    let mut z = self.zones.remove(order);
                    let merged = z.free(lower);
                    let ghost zfin = z;
                    self.zones.insert(order, z);
                    self.outstanding = Ghost(self.outstanding@ - pow2((pre.po() + order) as nat));
                    self.allocated = Ghost(
                        self.allocated@.remove(lower as int).insert(
                            higher as int, order as int));
                    proof {
                        lemma_remove_insert(mid.zones@, order as int, zfin);
                        assert(self.zones@ =~= mid.zones@.update(order as int, zfin));
                        if merged is Some {
                            let zp = mid.zones@[order as int];
                            assert(mem(zp.list(), zp.spec_buddy(lower as int)));
                            assert(mid.zone_has(order as int, zp.spec_buddy(lower as int)));
                            let bd = zp.spec_buddy(lower as int);
                            assert(bd == lower + zp.bsz());
                            assert(bd + mid.bsz(order as int) <= lower
                                || lower + mid.bsz(order as int + 1) <= bd);
                            assert(false);
                        }
                        self.reestablish_after_give(mid, order as int, lower as int, zfin);
                    }
                    proof {
                        let b = pre.bsz(order as int) as int;
                        let b2 = pre.bsz(order as int + 1) as int;
                        assert(b2 == 2 * b) by {
                            lemma_pow2_adds((pre.po() + order) as nat, 1);
                            vstd::arithmetic::power2::lemma2_to64();
                        }
                        assert(!pre.allocated_().dom().contains(lower as int));
                        lemma_pow2_pos((pre.po() + order) as nat);
                        assert(higher == lower + b);
                        assert(!mid.allocated_().dom().contains(higher as int)) by {
                            if mid.allocated_().dom().contains(higher as int) {
                                assert(pre.allocated_().dom().contains(higher as int));
                                lemma_pow2_pos(
                                    (pre.po() + pre.allocated_()[higher as int]) as nat);
                                assert(false);
                            }
                        }
                        self.prove_inv_alloc_after_split(
                            mid, order as int, lower as int, higher as int);
                        lemma_pow2_pos((pre.po() + order) as nat);
                        assert(b2 == 2 * b) by {
                            lemma_pow2_adds((pre.po() + order) as nat, 1);
                            vstd::arithmetic::power2::lemma2_to64();
                        }
                        let zp = mid.zones@[order as int];
                        assert(higher == lower + b);
                        assert((higher - pre.lo_addr()) % b == 0) by {
                            lemma_mod_add_sub(lower - pre.lo_addr(), b, b);
                            lemma_fundamental_div_mod_converse_mod(b, b, 1, 0);
                        }
                        assert(self.free_bytes()
                            == pre.free_bytes() - pre.bsz(order as int)) by {
                            assert(mid.free_bytes() == pre.free_bytes() - b2);
                        }
                        // the returned half overlaps no free block
                        assert forall|k2: int, x: int|
                            0 <= k2 <= self.mo() && #[trigger] self.zone_has(k2, x)
                            implies x + self.bsz(k2) <= higher
                                || higher + self.bsz(order as int) <= x by {
                            if k2 == order as int && x == lower as int {
                            } else {
                                assert(mid.zone_has(k2, x));
                                assert(x + mid.bsz(k2) <= lower
                                    || lower + mid.bsz(order as int + 1) <= x);
                            }
                        }
                        assert forall|bnd: int| pre.all_below(bnd)
                            implies self.all_below(bnd)
                                && higher as int + pre.bsz(order as int) <= bnd by {
                            assert(lower as int + pre.bsz(order as int + 1) <= bnd);
                            assert forall|k2: int, x: int|
                                0 <= k2 <= self.mo() && #[trigger] self.zone_has(k2, x)
                                implies x + self.bsz(k2) <= bnd by {
                                if k2 == order as int && x == lower as int {
                                } else {
                                    assert(mid.zone_has(k2, x));
                                    assert(mid.all_below(bnd));
                                }
                            }
                        }
                        // the split published the lower half in this zone
                        assert(self.zone_has(order as int, lower as int));
                    }
                    Ok(higher)
                },
                Err(e) => {
                    proof {
                        assert forall|x: int|
                            !(#[trigger] pre.zone_has(order as int, x)) by {
                            if pre.zone_has(order as int, x) {
                                let l = pre.zones@[order as int].list();
                                let j = choose|j: int| 0 <= j < l.len() && l[j] == x;
                            }
                        }
                    }
                    Err(e)
                },
            }
        } else {
            proof {
                assert forall|x: int|
                    !(#[trigger] pre.zone_has(order as int, x)) by {
                    if pre.zone_has(order as int, x) {
                        let l = pre.zones@[order as int].list();
                        let j = choose|j: int| 0 <= j < l.len() && l[j] == x;
                    }
                }
            }
            Err(AllocErr)
        }
    }

    /// Returns a freed block of order `order` to the allocator, merging
    /// buddies as far as they will go. The free bytes grow by exactly the
    /// block size, and afterwards no two buddies below the top order are
    /// both free.
    pub fn free(&mut self, ptr: usize, order: usize)
        requires
            old(self).inv(),
            order <= old(self).mo(),
            old(self).lo_addr() <= ptr,
            (ptr - old(self).lo_addr()) % (old(self).bsz(order as int) as int) == 0,
            ptr + old(self).bsz(order as int) <= old(self).hi_addr(),
            old(self).range_free(ptr as int, order as int),
            old(self).alloc_disjoint_except(ptr as int, order as int),
        ensures
            final(self).inv(),
            final(self).same_geom(old(self)),
            final(self).free_bytes() == old(self).free_bytes() + old(self).bsz(order as int),
            final(self).outstanding_() == old(self).outstanding_() - old(self).bsz(order as int),
            final(self).allocated_() == old(self).allocated_().remove(ptr as int),
            exists|h: int| #[trigger] Self::free_shape(
                *old(self), *final(self), ptr as int, order as int, h),
            forall|b: int| old(self).all_below(b) && ptr + old(self).bsz(order as int) <= b
                ==> final(self).all_below(b),
        decreases old(self).mo() - order,
    {
        self.allocated = Ghost(self.allocated@.remove(ptr as int));
        let ghost pre = *self;
        proof {
            old(self).lemma_remove_entry_keeps(pre, ptr as int);
            pre.lemma_free_prep(order as int, ptr as int);
        }
        let mut z = self.zones.remove(order);
        let merged = z.free(ptr);
        let ghost zfin = z;
        self.zones.insert(order, z);
        proof {
            lemma_remove_insert(pre.zones@, order as int, zfin);
            assert(self.zones@ =~= pre.zones@.update(order as int, zfin));
        }
        match merged {
            None => {
                self.outstanding = Ghost(self.outstanding@ - pow2((pre.po() + order) as nat));
                proof {
                    if order < self.max_order {
                        assert(!mem(pre.zones@[order as int].list(),
                            pre.zones@[order as int].spec_buddy(ptr as int)));
                    }
                    self.reestablish_after_give(pre, order as int, ptr as int, zfin);
                    assert forall|x: int| #[trigger] pre.allocated_().dom().contains(x)
                        implies x + pre.bsz(pre.allocated_()[x]) <= ptr
                            || ptr + pre.bsz(order as int) <= x by {
                        assert(old(self).allocated_().dom().contains(x));
                        assert(x != ptr);
                    }
                    self.prove_inv_alloc_after_give(pre, order as int, ptr as int);
                    let pre0 = *old(self);
                    assert(pre.zones@ == pre0.zones@);
                    pre0.lemma_encl_self(ptr as int, order as int);
                    if (order as int) < pre0.mo() {
                        pre0.lemma_buddy_eq(ptr as int, order as int);
                        assert(!pre0.zone_has(order as int,
                            pre0.buddy_at(ptr as int, order as int))) by {
                            assert(!mem(pre.zones@[order as int].list(),
                                pre.zones@[order as int].spec_buddy(ptr as int)));
                        }
                    }
                    assert forall|k2: int, x: int| 0 <= k2 <= pre0.mo()
                        implies ((#[trigger] self.zone_has(k2, x)) <==> (
                            (k2 == order as int
                                && x == pre0.encl(ptr as int, order as int))
                            || (pre0.zone_has(k2, x)
                                && !(order as int <= k2 < order as int
                                    && x == pre0.buddy_at(
                                        pre0.encl(ptr as int, k2), k2))))) by {
                        assert(self.zone_has(k2, x)
                            <==> (pre.zone_has(k2, x)
                                || (k2 == order as int && x == ptr as int)));
                        assert(pre.zone_has(k2, x) == pre0.zone_has(k2, x));
                    }
                    assert(Self::free_shape(
                        pre0, *self, ptr as int, order as int, order as int));
                }
            },
            Some(m) => {
                self.outstanding = Ghost(self.outstanding@ + pow2((pre.po() + order) as nat));
                proof {
                    assert((order as int) < pre.mo());
                    self.reestablish_after_merge(
                        pre, order as int, ptr as int, m as int, zfin);
                    assert forall|k2: int, x: int|
                        0 <= k2 <= self.mo() && #[trigger] self.zone_has(k2, x)
                        implies pre.zone_has(k2, x) by {}
                    self.prove_inv_alloc_after_shrink(pre);
                    let buddy = pre.zones@[order as int].spec_buddy(ptr as int);
                    let b = pre.bsz(order as int) as int;
                    let b2 = pre.bsz(order as int + 1) as int;
                    assert(b2 == 2 * b) by {
                        lemma_pow2_adds((pre.po() + order) as nat, 1);
                        vstd::arithmetic::power2::lemma2_to64();
                    }
                    assert(pre.zone_has(order as int, buddy));
                    assert(!pre.allocated_().dom().contains(buddy)) by {
                        if pre.allocated_().dom().contains(buddy) {
                            lemma_pow2_pos(
                                (pre.po() + pre.allocated_()[buddy]) as nat);
                            lemma_pow2_pos((pre.po() + order) as nat);
                            assert(false);
                        }
                    }
                    assert forall|x: int| #[trigger] self.allocated_().dom().contains(x)
                            && x != m as int
                        implies x + self.bsz(self.allocated_()[x]) <= m
                            || m + self.bsz(order as int + 1) <= x by {
                        assert(old(self).allocated_().dom().contains(x));
                        assert(x != ptr);
                        assert(x + pre.bsz(pre.allocated_()[x]) <= ptr
                            || ptr + b <= x);
                        assert(x + pre.bsz(pre.allocated_()[x]) <= buddy
                            || buddy + b <= x);
                        assert(m as int == ptr || m as int == buddy);
                        assert(m + b2 == ptr + b || m + b2 == buddy + b);
                    }
                    assert(self.alloc_disjoint_except(m as int, order as int + 1));
                    assert(!self.allocated_().dom().contains(m as int)) by {
                        if m as int != ptr {
                            assert(m as int == buddy);
                        }
                    }
                }
                let ghost mid = *self;
                self.free(m, order + 1);
                proof {
                    let b = pre.bsz(order as int) as int;
                    let b2 = pre.bsz(order as int + 1) as int;
                    assert(b2 == 2 * b) by {
                        lemma_pow2_adds((pre.po() + order) as nat, 1);
                        vstd::arithmetic::power2::lemma2_to64();
                    }
                    assert(mid.allocated@.remove(m as int) =~= pre.allocated@);
                    assert(self.allocated@ == old(self).allocated@.remove(ptr as int));
                    assert forall|bnd: int|
                        pre.all_below(bnd) && ptr + pre.bsz(order as int) <= bnd
                        implies self.all_below(bnd) by {
                        assert(mid.all_below(bnd));
                        let buddy = pre.zones@[order as int].spec_buddy(ptr as int);
                        assert(buddy + b <= bnd) by {
                            assert(pre.zone_has(order as int, buddy));
                        }
                        assert(m as int + b2 <= bnd);
                    }
                    let pre0 = *old(self);
                    assert(pre.zones@ == pre0.zones@);
                    let buddy = pre.zones@[order as int].spec_buddy(ptr as int);
                    pre0.lemma_buddy_eq(ptr as int, order as int);
                    assert(buddy == ptr + b || buddy == ptr - b);
                    assert(m as int == ptr || m as int == buddy) by {
                        assert(m as int + b2
                            == (if ptr as int <= buddy { buddy } else { ptr as int }) + b);
                    }
                    assert(mid.lo_addr() <= m as int
                        && (m as int - mid.lo_addr()) % (mid.bsz(order as int + 1) as int)
                            == 0);
                    assert(mid.lo_addr() == pre0.lo_addr() && mid.po() == pre0.po()
                        && mid.mo() == pre0.mo());
                    pre0.lemma_encl_of_contained(ptr as int, m as int, order as int + 1);
                    pre0.lemma_encl_self(ptr as int, order as int);
                    assert(exists|h: int| #[trigger] Self::free_shape(
                        mid, *self, m as int, order as int + 1, h));
                    let h = choose|h: int| #[trigger] Self::free_shape(
                        mid, *self, m as int, order as int + 1, h);
                    assert(Self::free_shape(mid, *self, m as int, order as int + 1, h));
                    assert(order as int + 1 <= h <= pre0.mo());
                    assert forall|j: int| order as int <= j < h
                        implies pre0.zone_has(j, #[trigger] pre0.buddy_at(
                            pre0.encl(ptr as int, j), j)) by {
                        if j == order as int {
                            assert(pre0.encl(ptr as int, order as int) == ptr as int);
                            assert(pre0.buddy_at(ptr as int, order as int) == buddy);
                            assert(pre.zone_has(order as int, buddy));
                        } else {
                            pre0.lemma_encl_compose(ptr as int, order as int + 1, j);
                            assert(mid.zone_has(j, mid.buddy_at(
                                mid.encl(m as int, j), j)));
                            assert(mid.encl(m as int, j) == pre0.encl(ptr as int, j));
                            assert(mid.buddy_at(pre0.encl(ptr as int, j), j)
                                == pre0.buddy_at(pre0.encl(ptr as int, j), j));
                            assert(mid.zone_has(j, pre0.buddy_at(
                                    pre0.encl(ptr as int, j), j))
                                ==> pre.zone_has(j, pre0.buddy_at(
                                    pre0.encl(ptr as int, j), j)));
                        }
                    }
                    if h < pre0.mo() {
                        pre0.lemma_encl_compose(ptr as int, order as int + 1, h);
                        assert(!mid.zone_has(h, mid.buddy_at(mid.encl(m as int, h), h)));
                        assert(mid.encl(m as int, h) == pre0.encl(ptr as int, h));
                        assert(mid.buddy_at(pre0.encl(ptr as int, h), h)
                            == pre0.buddy_at(pre0.encl(ptr as int, h), h));
                        assert(!pre0.zone_has(h, pre0.buddy_at(
                            pre0.encl(ptr as int, h), h)));
                    }
                    pre0.lemma_encl_compose(ptr as int, order as int + 1, h);
                    assert(mid.encl(m as int, h) == pre0.encl(ptr as int, h));
                    assert forall|k2: int, x: int| 0 <= k2 <= pre0.mo()
                        implies ((#[trigger] self.zone_has(k2, x)) <==> (
                            (k2 == h && x == pre0.encl(ptr as int, h))
                            || (pre0.zone_has(k2, x)
                                && !(order as int <= k2 < h
                                    && x == pre0.buddy_at(
                                        pre0.encl(ptr as int, k2), k2))))) by {
                        assert(self.zone_has(k2, x) <==> (
                            (k2 == h && x == mid.encl(m as int, h))
                            || (mid.zone_has(k2, x)
                                && !(order as int + 1 <= k2 < h
                                    && x == mid.buddy_at(
                                        mid.encl(m as int, k2), k2)))));
                        assert(mid.zone_has(k2, x) <==> (pre0.zone_has(k2, x)
                            && !(k2 == order as int && x == buddy)));
                        if order as int + 1 <= k2 {
                            pre0.lemma_encl_compose(ptr as int, order as int + 1, k2);
                            assert(mid.encl(m as int, k2) == pre0.encl(ptr as int, k2));
                            assert(mid.buddy_at(pre0.encl(ptr as int, k2), k2)
                                == pre0.buddy_at(pre0.encl(ptr as int, k2), k2));
                        }
                        if k2 == order as int {
                            assert(pre0.encl(ptr as int, order as int) == ptr as int);
                            assert(pre0.buddy_at(ptr as int, order as int) == buddy);
                        }
                    }
                    assert(Self::free_shape(pre0, *self, ptr as int, order as int, h));
                }
            },
        }
    }
}

impl BuddyBlockAllocator {
    /// The number of pages in `[start, end)` before any reservation.
    pub open spec fn spec_num_pages(start: int, end: int, po: nat) -> int {
        (end - start) / (pow2(po) as int)
    }

    /// The bit count of the order-`k` pair bitmap.
    pub open spec fn spec_bits(np: int, k: int) -> int {
        np / (pow2((k + 1) as nat) as int) + 1
    }

    /// The bytes reserved for the bitmaps of orders `0 ..= k`.
    pub open spec fn spec_arr_bytes(np: int, k: int) -> int
        decreases k + 1,
    {
        if k < 0 {
            0
        } else {
            Self::spec_arr_bytes(np, k - 1)
                + Bitmap::spec_width(Self::spec_bits(np, k) as nat)
        }
    }

    /// The base of the managed region: the bitmap reservation rounded up
    /// to a page boundary.
    pub open spec fn spec_mem_start(start: int, end: int, po: nat, mo: nat) -> int {
        crate::util::spec_align_up(
            start + Self::spec_arr_bytes(Self::spec_num_pages(start, end, po), mo as int),
            pow2(po) as int,
        )
    }

    /// The end of the managed region: `end` rounded down to a page
    /// boundary.
    pub open spec fn spec_mem_end(end: int, po: nat) -> int {
        (end / (pow2(po) as int)) * (pow2(po) as int)
    }

    /// The reservation grows with the order.
    proof fn lemma_arr_bytes_mono(np: int, k1: int, k2: int)
        requires
            k1 <= k2,
        ensures
            Self::spec_arr_bytes(np, k1) <= Self::spec_arr_bytes(np, k2),
        decreases k2 - k1,
    {
        if k1 < k2 {
            Self::lemma_arr_bytes_mono(np, k1, k2 - 1);
        }
    }

    /// An allocator with all-empty zones holds no free bytes.
    proof fn lemma_fb_empty(zs: Seq<BuddyBlockAllocatorZone>, po: nat, n: int)
        requires
            forall|j: int| 0 <= j < zs.len() ==> (#[trigger] zs[j]).list().len() == 0,
            n <= zs.len(),
        ensures
            Self::fb_upto(zs, po, n) == 0,
        decreases n,
    {
        if n > 0 {
            Self::lemma_fb_empty(zs, po, n - 1);
        }
    }

    /// Creates the allocator over `[start, end)`: reserves the bitmap
    /// storage from `start`, aligns the managed region to page boundaries
    /// and seeds the free lists greedily from the largest order down, which
    /// yields the already-coalesced initial state.
    pub fn new(start: usize, end: usize, page_order: usize, max_order: usize) -> (r: Self)
        requires
            start <= end,
            page_order + max_order + 1 < usize::BITS,
            end + pow2(page_order as nat) <= usize::MAX,
            Self::spec_mem_start(start as int, end as int, page_order as nat, max_order as nat)
                <= Self::spec_mem_end(end as int, page_order as nat),
        ensures
            r.inv(),
            r.po() == page_order,
            r.mo() == max_order,
            r.lo_addr() == Self::spec_mem_start(
                start as int, end as int, page_order as nat, max_order as nat),
            r.hi_addr() == Self::spec_mem_end(end as int, page_order as nat),
            r.outstanding_() == 0,
            r.capacity_() == r.hi_addr() - r.lo_addr(),
            r.free_bytes() == r.hi_addr() - r.lo_addr(),
    {
        proof {
            vstd::layout::unsigned_int_max_values();
            crate::util::lemma_pow2_gt(usize::BITS as nat);
            vstd::bits::lemma_usize_pow2_no_overflow(page_order as nat);
            lemma_pow2_pos(page_order as nat);
        }
        let page_size = pow2_usize(page_order);
        let num_pages = (end - start) / page_size;
        let ghost np = num_pages as int;
        proof {
            vstd::arithmetic::div_mod::lemma_div_pos_is_pos(
                (end - start) as int, page_size as int);
        }

        // total bytes of bitmap storage for all the orders
        let mut arr_bytes: usize = 0;
        let mut k: usize = 0;
        proof {
            Self::lemma_arr_bytes_mono(np, -1, max_order as int);
            assert(start + Self::spec_arr_bytes(np, max_order as int)
                <= Self::spec_mem_start(
                    start as int, end as int, page_order as nat, max_order as nat)) by {
                crate::util::lemma_div_mul_le(
                    start + Self::spec_arr_bytes(np, max_order as int)
                        + pow2(page_order as nat) - 1,
                    pow2(page_order as nat) as int);
            }
            assert(Self::spec_mem_end(end as int, page_order as nat) <= end) by {
                crate::util::lemma_div_mul_le(end as int, pow2(page_order as nat) as int);
            }
            assert(max_order + 1 <= usize::MAX);
            assert(num_pages < usize::MAX) by {
                vstd::arithmetic::div_mod::lemma_div_nonincreasing(
                    (end - start) as int, page_size as int);
            }
        }
        while k <= max_order
            invariant
                k <= max_order + 1,
                arr_bytes == Self::spec_arr_bytes(np, k as int - 1),
                np == num_pages,
                num_pages == Self::spec_num_pages(start as int, end as int, page_order as nat),
                page_order + max_order + 1 < usize::BITS,
                max_order + 1 <= usize::MAX,
                num_pages < usize::MAX,
                start + Self::spec_arr_bytes(np, max_order as int) <= usize::MAX,
            decreases max_order + 1 - k,
        {
            proof {
                vstd::bits::lemma_usize_pow2_no_overflow((k + 1) as nat);
                lemma_pow2_pos((k + 1) as nat);
                Self::lemma_arr_bytes_mono(np, k as int, max_order as int);
                vstd::arithmetic::div_mod::lemma_div_pos_is_pos(
                    np, pow2((k + 1) as nat) as int);
                vstd::arithmetic::div_mod::lemma_div_nonincreasing(
                    np, pow2((k + 1) as nat) as int);
            }
            let bits = num_pages / pow2_usize(k + 1) + 1;
            let w = Bitmap::width(bits);
            arr_bytes = arr_bytes + w;
            k = k + 1;
        }
        let arr_ptr = start + arr_bytes;
        let mem_start = crate::util::align_up(arr_ptr, page_size);
        let mem_end = crate::util::align_down(end, page_size);
        proof {
            assert(mem_start as int == Self::spec_mem_start(
                start as int, end as int, page_order as nat, max_order as nat));
            assert(mem_end as int == Self::spec_mem_end(end as int, page_order as nat));
        }

        // one zone per order, each over a zeroed bitmap
        let mut zones: Vec<BuddyBlockAllocatorZone> = Vec::new();
        let mut k: usize = 0;
        while k <= max_order
            invariant
                k <= max_order + 1,
                zones.len() == k,
                np == num_pages,
                page_order + max_order + 1 < usize::BITS,
                max_order + 1 <= usize::MAX,
                num_pages < usize::MAX,
                forall|j: int| 0 <= j < k ==> {
                    let z = #[trigger] zones@[j];
                    &&& z.inv()
                    &&& z.base() == mem_start
                    &&& z.ord() == j
                    &&& z.pg() == page_order
                    &&& (z.is_top() <==> j == max_order)
                    &&& z.list().len() == 0
                    &&& z.bits().len() == Self::spec_bits(np, j)
                },
            decreases max_order + 1 - k,
        {
            proof {
                vstd::bits::lemma_usize_pow2_no_overflow((k + 1) as nat);
                lemma_pow2_pos((k + 1) as nat);
                vstd::arithmetic::div_mod::lemma_div_pos_is_pos(
                    np, pow2((k + 1) as nat) as int);
                vstd::arithmetic::div_mod::lemma_div_nonincreasing(
                    np, pow2((k + 1) as nat) as int);
            }
            let bits = num_pages / pow2_usize(k + 1) + 1;
            let bm = Bitmap::new(bits);
            let z = BuddyBlockAllocatorZone::new(
                mem_start, k, page_order, k == max_order, bm);
            zones.push(z);
            k = k + 1;
        }

        let mut r = BuddyBlockAllocator {
            zones,
            page_order,
            max_order,
            mem_start,
            mem_end,
            capacity: Ghost(0),
            outstanding: Ghost(0),
            allocated: Ghost(Map::empty()),
        };
        proof {
            r.lemma_initial_inv(np, start as int, end as int);
            lemma_pow2_pos((page_order + max_order) as nat);
        }

        // seed the region greedily, largest blocks first
        let mut cur = mem_start;
        let mut k_plus = max_order + 1;
        proof {
            lemma_pow2_pos((page_order + max_order) as nat);
            let b = pow2((page_order + max_order) as nat) as int;
            assert(0int % b == 0) by (nonlinear_arith)
                requires b > 0;
            assert(cur - mem_start as int == 0);
        }
        while k_plus > 0
            invariant
                k_plus <= max_order + 1,
                max_order + 1 <= usize::MAX,
                r.inv(),
                r.po() == page_order,
                r.mo() == max_order,
                r.lo_addr() == mem_start,
                r.hi_addr() == mem_end,
                r.capacity_() == 0,
                mem_start <= cur <= mem_end,
                k_plus >= 1 ==> (cur - mem_start as int)
                    % (pow2((page_order + k_plus - 1) as nat) as int) == 0,
                k_plus == 0 ==> cur == mem_end,
                r.free_bytes() == cur - mem_start,
                r.outstanding_() == -(cur - mem_start),
                r.allocated_() == Map::<int, int>::empty(),
                r.all_below(cur as int),
                page_order + max_order + 1 < usize::BITS,
                mem_end as int == Self::spec_mem_end(end as int, page_order as nat),
                mem_start as int % (pow2(page_order as nat) as int) == 0,
                mem_end as int % (pow2(page_order as nat) as int) == 0,
            decreases k_plus,
        {
            let order = k_plus - 1;
            proof {
                vstd::bits::lemma_usize_pow2_no_overflow((page_order + order) as nat);
                lemma_pow2_pos((page_order + order) as nat);
            }
            let chunk = pow2_usize(page_order + order);
            while chunk <= mem_end - cur
                invariant
                    r.inv(),
                    r.po() == page_order,
                    r.mo() == max_order,
                    r.lo_addr() == mem_start,
                    r.hi_addr() == mem_end,
                    r.capacity_() == 0,
                    order <= max_order,
                    chunk == pow2((page_order + order) as nat),
                    mem_start <= cur <= mem_end,
                    (cur - mem_start as int) % (chunk as int) == 0,
                    r.free_bytes() == cur - mem_start,
                    r.outstanding_() == -(cur - mem_start),
                    r.allocated_() == Map::<int, int>::empty(),
                    r.all_below(cur as int),
                decreases mem_end - cur,
            {
                let ghost before = r;
                proof {
                    lemma_pow2_pos((page_order + order) as nat);
                    assert forall|k2: int, x: int|
                        0 <= k2 <= before.mo() && #[trigger] before.zone_has(k2, x)
                        implies x + before.bsz(k2) <= cur
                            || cur + before.bsz(order as int) <= x by {}
                    assert(before.range_free(cur as int, order as int));
                    assert(before.alloc_disjoint_except(cur as int, order as int)) by {
                        assert forall|x: int|
                            #[trigger] before.allocated_().dom().contains(x)
                                && x != cur as int
                            implies x + before.bsz(before.allocated_()[x]) <= cur
                                || cur + before.bsz(order as int) <= x by {
                            assert(false);
                        }
                    }
                }
                r.free(cur, order);
                proof {
                    assert(Map::<int, int>::empty().remove(cur as int)
                        =~= Map::<int, int>::empty());
                }
                proof {
                    assert(before.all_below(cur as int + chunk)) by {
                        assert forall|k2: int, x: int|
                            0 <= k2 <= before.mo() && #[trigger] before.zone_has(k2, x)
                            implies x + before.bsz(k2) <= cur as int + chunk by {}
                    }
                    assert(r.all_below(cur as int + chunk));
                    crate::util::lemma_mod_add_sub(
                        cur - mem_start as int, chunk as int,
                        chunk as int);
                    vstd::arithmetic::div_mod::lemma_fundamental_div_mod_converse_mod(
                        chunk as int, chunk as int, 1, 0);
                }
                cur = cur + chunk;
            }
            proof {
                if order > 0 {
                    crate::util::lemma_pow2_divides(
                        cur - mem_start as int,
                        (page_order + order - 1) as nat, 1);
                }
                if order == 0 {
                    // the region ends on a page boundary, so the cursor
                    // reaches it exactly
                    lemma_pow2_pos(page_order as nat);
                    crate::util::lemma_mod_add_sub(
                        mem_end as int, mem_start as int, pow2(page_order as nat) as int);
                    crate::util::lemma_mod_add_sub(
                        cur - mem_start as int, mem_end - mem_start as int,
                        pow2(page_order as nat) as int);
                    crate::util::lemma_multiple_unique(
                        cur - mem_start as int, mem_end - mem_start as int,
                        pow2(page_order as nat) as int);
                }
            }
            k_plus = k_plus - 1;
        }
        let ghost rpre = r;
        r.capacity = Ghost((mem_end - mem_start) as int);
        r.outstanding = Ghost(0);
        proof {
            Self::lemma_core_transfer(rpre, r);
            assert forall|k2: int, x: int|
                0 <= k2 <= r.mo() && #[trigger] r.zone_has(k2, x)
                implies rpre.zone_has(k2, x) by {}
            r.prove_inv_alloc_after_shrink(rpre);
        }
        r
    }

    /// The invariant core and the free-byte sum ignore the ghost
    /// accounting fields.
    proof fn lemma_core_transfer(a: Self, b: Self)
        requires
            a.inv_zones(),
            b.zones == a.zones,
            b.page_order == a.page_order,
            b.max_order == a.max_order,
            b.mem_start == a.mem_start,
            b.mem_end == a.mem_end,
        ensures
            b.inv_zones(),
            b.free_bytes() == a.free_bytes(),
    {
        assert forall|k: int, x: int| true implies
            (#[trigger] b.zone_has(k, x) <==> a.zone_has(k, x)) by {}
        assert forall|k: int, x: int| 0 <= k <= b.mo() && #[trigger] b.zone_has(k, x)
            implies b.lo_addr() <= x && x + b.bsz(k) <= b.hi_addr() by {
            assert(a.zone_has(k, x));
        }
        assert forall|k1: int, x1: int, k2: int, x2: int|
            0 <= k1 <= b.mo() && 0 <= k2 <= b.mo()
                && #[trigger] b.zone_has(k1, x1) && #[trigger] b.zone_has(k2, x2)
                && !(k1 == k2 && x1 == x2)
            implies x1 + b.bsz(k1) <= x2 || x2 + b.bsz(k2) <= x1 by {
            assert(a.zone_has(k1, x1) && a.zone_has(k2, x2));
        }
        assert forall|k: int, x1: int, x2: int|
            0 <= k < b.mo() && #[trigger] b.zone_has(k, x1)
                && #[trigger] b.zone_has(k, x2) && x1 != x2
            implies b.zones@[k].pair(x1) != b.zones@[k].pair(x2) by {
            assert(a.zone_has(k, x1) && a.zone_has(k, x2));
            assert(a.zones@[k].pair(x1) != a.zones@[k].pair(x2));
        }
    }

    /// The freshly built allocator, before seeding, satisfies the
    /// invariant with empty zones.
    proof fn lemma_initial_inv(&self, np: int, start: int, end: int)
        requires
            self.zones@.len() == self.max_order + 1,
            self.page_order + self.max_order + 1 < usize::BITS,
            self.mem_start <= self.mem_end,
            self.capacity@ == 0,
            self.outstanding@ == 0,
            forall|j: int| 0 <= j < self.zones@.len() ==> {
                let z = #[trigger] self.zones@[j];
                &&& z.inv()
                &&& z.base() == self.lo_addr()
                &&& z.ord() == j
                &&& z.pg() == self.po()
                &&& (z.is_top() <==> j == self.mo())
                &&& z.list().len() == 0
                &&& z.bits().len() == Self::spec_bits(np, j)
            },
            np == Self::spec_num_pages(start, end, self.po()),
            start <= end,
            self.lo_addr() >= start,
            self.hi_addr() <= end,
            self.allocated@ == Map::<int, int>::empty(),
        ensures
            self.inv(),
            self.free_bytes() == 0,
            forall|k: int, x: int| 0 <= k <= self.mo() ==> !#[trigger] self.zone_has(k, x),
    {
        assert forall|a: int| #[trigger] self.allocated_().dom().contains(a)
            implies false by {}
        assert forall|k: int, x: int| 0 <= k <= self.mo() && #[trigger] self.zone_has(k, x)
            implies false by {
            let l = self.zones@[k].list();
            let j = choose|j: int| 0 <= j < l.len() && l[j] == x;
        }
        Self::lemma_fb_empty(self.zones@, self.po(), self.mo() as int + 1);
        // the bitmaps cover the whole region
        let p = pow2(self.po()) as int;
        lemma_pow2_pos(self.po());
        assert forall|k: int| 0 <= k <= self.mo()
            implies pow2((self.po() + k + 1) as nat)
                * (#[trigger] self.zones@[k]).bits().len()
                >= self.hi_addr() - self.lo_addr() by {
            let d = pow2((k + 1) as nat) as int;
            lemma_pow2_pos((k + 1) as nat);
            lemma_pow2_adds(self.po(), (k + 1) as nat);
            let bits = Self::spec_bits(np, k);
            assert(self.zones@[k].bits().len() == bits);
            // np / d * d + d > np, so (np / d + 1) * d > np
            crate::util::lemma_div_mul_le(np, d);
            assert(bits * d == (np / d) * d + d) by (nonlinear_arith)
                requires bits == np / d + 1;
            assert(bits * d > np);
            // np * p + p > end - start
            crate::util::lemma_div_mul_le(end - start, p);
            assert(np * p > end - start - p);
            // chain the two together
            assert((pow2((self.po() + k + 1) as nat) as int) * bits == (bits * d) * p) by {
                assert(pow2((self.po() + k + 1) as nat) == p * d) by {
                    assert((self.po() + k + 1) as nat == self.po() + (k + 1) as nat);
                }
                assert((p * d) * bits == (bits * d) * p) by (nonlinear_arith);
            }
            assert((bits * d) * p >= (np + 1) * p) by {
                lemma_mul_inequality(np + 1, bits * d, p);
            }
            assert((np + 1) * p == np * p + p) by (nonlinear_arith);
            assert(np * p + p > end - start);
            assert(self.hi_addr() - self.lo_addr() <= end - start);
        }
    }

    /// The largest order-`order` block boundary at or below `ptr`.
    pub fn floor_alloc(&self, ptr: usize, order: usize) -> (r: usize)
        requires
            self.inv(),
            order <= self.mo(),
            self.lo_addr() <= ptr,
        ensures
            self.lo_addr() <= r <= ptr,
            (r - self.lo_addr()) % (self.bsz(order as int) as int) == 0,
            ptr - r < self.bsz(order as int),
    {
        self.zones[order].floor_alloc(ptr)
    }
}

} // verus!
