//! A table with a fixed capacity, so that its rows do not move.

use vstd::prelude::*;

verus! {

pub struct StableVec<T> {
    pub items: Vec<T>,
    pub capacity: usize,
}

impl<T> StableVec<T> {
    pub open spec fn wf(&self) -> bool {
        self.items@.len() <= self.capacity
    }

    pub fn from_vec_with_reserve(items: Vec<T>, reserve: usize) -> (r: Self)
        requires
            items@.len() + reserve <= usize::MAX,
        ensures
            r.wf(),
            r.items@ == items@,
            r.capacity == items@.len() + reserve,
    {
        let capacity: usize = items.len() + reserve;
        StableVec { items, capacity }
    }

    pub fn len(&self) -> (r: usize)
        ensures
            r == self.items@.len(),
    {
        self.items.len()
    }

    pub fn capacity(&self) -> (r: usize)
        ensures
            r == self.capacity,
    {
        self.capacity
    }

    /// Appends a row; `false` when the table is full.
    pub fn push(&mut self, item: T) -> (r: bool)
        requires
            old(self).wf(),
        ensures
            final(self).wf(),
            final(self).capacity == old(self).capacity,
            r == (old(self).items@.len() < old(self).capacity),
            r ==> final(self).items@ == old(self).items@.push(item),
            !r ==> *final(self) == *old(self),
    {
        if self.items.len() >= self.capacity {
            return false;
        }
        self.items.push(item);
        true
    }

    /// Moves the rows into a table with room for `reserve` more.
    pub fn reallocate_with_reserve(&mut self, reserve: usize)
        requires
            old(self).items@.len() + reserve <= usize::MAX,
        ensures
            final(self).wf(),
            final(self).items == old(self).items,
            final(self).capacity == old(self).items@.len() + reserve,
    {
        self.capacity = self.items.len() + reserve;
    }
}

} // verus!
