//! The kernel heap: a once-initialized wrapper around the combined
//! allocator. In a kernel this sits behind a spinlock and serves every
//! dynamic allocation; calls before `initialize` are a programmer error.

use vstd::prelude::*;

verus! {

use vstd::arithmetic::power2::pow2;

use crate::bin;
use crate::bin::alloc_exhausted;
use crate::bin::alloc_ok_shape;
use crate::bin::PAGE_ORDER;
use crate::bin::MAX_BLOCK_ORDER;
use crate::buddy::BuddyBlockAllocator;
use crate::util::AllocErr;

/// Thread-safe (locking) wrapper around a particular memory allocator.
pub struct Allocator {
    inner: Option<bin::Allocator>,
}

impl Allocator {
    /// Whether `initialize` has been called.
    pub closed spec fn is_initialized(&self) -> bool {
        self.inner is Some
    }

    /// The inner allocator is sound whenever it exists.
    pub closed spec fn wf(&self) -> bool {
        match self.inner {
            Some(a) => a.inv(),
            None => true,
        }
    }

    /// The allocator the heap delegates to.
    pub closed spec fn inner_(&self) -> bin::Allocator {
        self.inner->0
    }

    /// Returns an uninitialized `Allocator`.
    ///
    /// The allocator must be initialized by calling `initialize()` before
    /// the first memory allocation.
    pub fn uninitialized() -> (r: Self)
        ensures
            !r.is_initialized(),
            r.wf(),
    {
        Allocator { inner: None }
    }

    /// Initializes the memory allocator over the usable memory range
    /// `[start, end)`, which the platform's memory map supplies.
    pub fn initialize(&mut self, start: usize, end: usize)
        requires
            start <= end,
            PAGE_ORDER + MAX_BLOCK_ORDER + 1 < usize::BITS,
            end + pow2(PAGE_ORDER as nat) <= usize::MAX,
            BuddyBlockAllocator::spec_mem_start(
                start as int, end as int, PAGE_ORDER as nat, MAX_BLOCK_ORDER as nat)
                <= BuddyBlockAllocator::spec_mem_end(end as int, PAGE_ORDER as nat),
        ensures
            final(self).is_initialized(),
            final(self).wf(),
            final(self).inner_().inner_().lo_addr() == BuddyBlockAllocator::spec_mem_start(
                start as int, end as int, PAGE_ORDER as nat, MAX_BLOCK_ORDER as nat),
            final(self).inner_().inner_().hi_addr() == BuddyBlockAllocator::spec_mem_end(
                end as int, PAGE_ORDER as nat),
            final(self).inner_().inner_().outstanding_() == 0,
            final(self).inner_().inner_().capacity_()
                == final(self).inner_().inner_().hi_addr()
                    - final(self).inner_().inner_().lo_addr(),
            final(self).inner_().inner_().free_bytes()
                == final(self).inner_().inner_().capacity_(),
            forall|b: int| 0 <= b < final(self).inner_().bins_().len()
                ==> (#[trigger] final(self).inner_().bins_()[b]).slabs_().len() == 0,
    {
        self.inner = Some(bin::Allocator::new(start, end));
    }

    /// Allocates memory meeting `size` and `align`, which must be a
    /// power of two no larger than a page.
    pub fn allocate(&mut self, size: usize, align: usize) -> (r: Result<usize, AllocErr>)
        requires
            old(self).is_initialized(),
            old(self).wf(),
            0 < size,
            0 < align,
            align <= pow2(PAGE_ORDER as nat),
            vstd::arithmetic::power2::is_pow2(align as int),
        ensures
            final(self).is_initialized(),
            final(self).wf(),
            match r {
                Ok(a) => {
                    &&& a as int % (align as int) == 0
                    &&& alloc_ok_shape(
                        old(self).inner_(), final(self).inner_(),
                        size as int, align as int, a as int)
                },
                Err(_) => alloc_exhausted(old(self).inner_(), size as int, align as int),
            },
    {
        match &mut self.inner {
            Some(a) => a.allocate(size, align),
            None => Err(AllocErr),
        }
    }

    /// Deallocates the memory referenced by `ptr`, which must hold a
    /// block allocated with the same `size` and `align`.
    pub fn dealloc(&mut self, ptr: usize, size: usize, align: usize)
        requires
            old(self).is_initialized(),
            old(self).wf(),
            0 < size,
            0 < align,
            align <= pow2(PAGE_ORDER as nat),
            vstd::arithmetic::power2::is_pow2(align as int),
            old(self).inner_().valid_dealloc(ptr as int, size as int, align as int),
        ensures
            final(self).is_initialized(),
            final(self).wf(),
            bin::dealloc_shape(
                old(self).inner_(), final(self).inner_(),
                ptr as int, size as int, align as int),
    {
        match &mut self.inner {
            Some(a) => a.dealloc(ptr, size, align),
            None => (),
        }
    }
}

} // verus!
