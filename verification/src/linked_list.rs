//! The free-block pool of the allocator: a list of block addresses.
//!
//! In a kernel this list is intrusive, its links stored in-place at the head
//! of each free block; here the linkage is a private representation detail
//! behind an abstract sequence of addresses, newest first at the back.

use vstd::prelude::*;

verus! {

/// A list of free-block addresses.
pub struct LinkedList {
    items: Vec<usize>,
}

impl View for LinkedList {
    type V = Seq<usize>;

    closed spec fn view(&self) -> Seq<usize> {
        self.items@
    }
}

impl LinkedList {
    /// Whether `addr` is in the list.
    pub open spec fn has(&self, addr: usize) -> bool {
        self@.contains(addr)
    }

    /// Returns a new, empty list.
    pub fn new() -> (r: LinkedList)
        ensures
            r@ == Seq::<usize>::empty(),
    {
        LinkedList { items: Vec::new() }
    }

    /// Returns `true` if the list is empty and `false` otherwise.
    pub fn is_empty(&self) -> (r: bool)
        ensures
            r == (self@.len() == 0),
    {
        self.items.len() == 0
    }

    /// Pushes the address `item` to the front of the list.
    pub fn push(&mut self, item: usize)
        ensures
            final(self)@ == old(self)@.push(item),
    {
        self.items.push(item);
    }

    /// Removes and returns the first item in the list, if any.
    pub fn pop(&mut self) -> (r: Option<usize>)
        ensures
            match r {
                Some(a) => old(self)@.len() > 0
                    && a == old(self)@.last()
                    && final(self)@ == old(self)@.drop_last(),
                None => old(self)@.len() == 0 && final(self)@ == old(self)@,
            },
    {
        self.items.pop()
    }

    /// Returns the first item in the list without removing it, if any.
    pub fn peek(&self) -> (r: Option<usize>)
        ensures
            match r {
                Some(a) => self@.len() > 0 && a == self@.last(),
                None => self@.len() == 0,
            },
    {
        if self.items.len() == 0 {
            None
        } else {
            Some(self.items[self.items.len() - 1])
        }
    }

    /// Removes the specified item from the list. The first occurrence,
    /// counted from the back, leaves; any duplicates stay.
    pub fn remove(&mut self, item: usize)
        requires
            old(self).has(item),
        ensures
            exists|i: int|
                {
                    &&& 0 <= i < old(self)@.len()
                    &&& old(self)@[i] == item
                    &&& final(self)@ == old(self)@.remove(i)
                },
            final(self)@.len() == old(self)@.len() - 1,
    {
        proof {
            let i0 = choose|i: int| 0 <= i < self@.len() && self@[i] == item;
            assert(0 <= i0 <= self@.len() - 1);
        }
        let mut j: usize = self.items.len() - 1;
        while self.items[j] != item
            invariant
                j < self.items.len(),
                self@ == old(self)@,
                exists|i: int| 0 <= i <= j && self@[i] == item,
            decreases j,
        {
            proof {
                let i = choose|i: int| 0 <= i <= j && self@[i] == item;
                assert(self@[i] == item);
                assert(i < j);
            }
            j = j - 1;
        }
        self.items.remove(j);
    }

    /// Returns an iterator over the items in this list.
    pub fn iter(&self) -> (r: Iter<'_>)
        ensures
            r.list == self,
            r.current == 0,
    {
        Iter { list: self, current: 0 }
    }
}

/// An iterator over the items of the list, oldest first.
pub struct Iter<'a> {
    /// The list being walked.
    pub list: &'a LinkedList,
    /// The next position to yield.
    pub current: usize,
}

impl<'a> Iter<'a> {
    /// The next address, if any remain.
    pub fn next(&mut self) -> (r: Option<usize>)
        requires
            old(self).current <= old(self).list@.len(),
        ensures
            final(self).list == old(self).list,
            match r {
                Some(a) => old(self).current < old(self).list@.len()
                    && a == old(self).list@[old(self).current as int]
                    && final(self).current == old(self).current + 1,
                None => old(self).current == old(self).list@.len()
                    && final(self).current == old(self).current,
            },
    {
        if self.current < self.list.items.len() {
            let ret = self.list.items[self.current];
            self.current = self.current + 1;
            Some(ret)
        } else {
            None
        }
    }
}

} // verus!
