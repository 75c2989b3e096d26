//! Fixed-capacity scratch vector.
//!
//! One instance serves as the reusable depth-first-search stack of a worker
//! thread. The capacity is chosen once and pushing past it is reported as a
//! failure instead of reallocating, so a worker's scratch never grows behind
//! its back in the middle of a pixel.

use vstd::prelude::*;

verus! {

/// Vector with a fixed capacity; `push` fails instead of growing it.
#[derive(Debug)]
pub struct CellVec<T> {
    storage: Vec<T>,
    capacity: usize,
}

impl<T> CellVec<T> {
    /// Elements currently held, oldest first.
    pub closed spec fn view(&self) -> Seq<T> {
        self.storage@
    }

    /// Fixed capacity the vector was built with.
    pub closed spec fn spec_capacity(&self) -> int {
        self.capacity as int
    }

    /// The length never exceeds the capacity.
    pub closed spec fn wf(&self) -> bool {
        self.storage@.len() <= self.capacity
    }

    /// Empty vector that can hold up to `capacity` elements.
    pub fn new(capacity: usize) -> (v: CellVec<T>)
        ensures
            v@ =~= Seq::<T>::empty(),
            v.spec_capacity() == capacity,
            v.wf(),
    {
        CellVec { storage: Vec::with_capacity(capacity), capacity }
    }

    /// Changes the capacity; elements past the new capacity are dropped.
    pub fn reallocate(&mut self, new_capacity: usize)
        requires
            old(self).wf(),
        ensures
            final(self).spec_capacity() == new_capacity,
            final(self).wf(),
            new_capacity >= old(self)@.len() ==> final(self)@ == old(self)@,
            new_capacity < old(self)@.len() ==> final(self)@ == old(self)@.subrange(
                0,
                new_capacity as int,
            ),
    {
        self.storage.truncate(new_capacity);
        self.capacity = new_capacity;
    }

    /// Index of the top element, absent when empty.
    pub fn last_index(&self) -> (r: Option<usize>)
        ensures
            self@.len() == 0 ==> r is None,
            self@.len() > 0 ==> r == Some((self@.len() - 1) as usize),
    {
        self.storage.len().checked_sub(1)
    }

    /// Number of elements held.
    pub fn len(&self) -> (l: usize)
        ensures
            l == self@.len(),
    {
        self.storage.len()
    }

    /// Fixed capacity.
    pub fn capacity(&self) -> (c: usize)
        ensures
            c == self.spec_capacity(),
    {
        self.capacity
    }

    /// Appends an element; fails (leaving the vector unchanged) when full.
    pub fn push(&mut self, value: T) -> (r: Result<(), ()>)
        requires
            old(self).wf(),
        ensures
            final(self).wf(),
            final(self).spec_capacity() == old(self).spec_capacity(),
            old(self)@.len() < old(self).spec_capacity() ==> r is Ok && final(self)@ == old(
                self,
            )@.push(value),
            old(self)@.len() >= old(self).spec_capacity() ==> r is Err && final(self)@ == old(
                self,
            )@,
    {
        if self.storage.len() < self.capacity {
            self.storage.push(value);
            Ok(())
        } else {
            Err(())
        }
    }

    /// Drops every element.
    pub fn clear(&mut self)
        requires
            old(self).wf(),
        ensures
            final(self)@ =~= Seq::<T>::empty(),
            final(self).spec_capacity() == old(self).spec_capacity(),
            final(self).wf(),
    {
        self.truncate(0);
    }

    /// Drops the elements past the first `len`.
    pub fn truncate(&mut self, len: usize)
        requires
            old(self).wf(),
        ensures
            final(self).spec_capacity() == old(self).spec_capacity(),
            final(self).wf(),
            len <= old(self)@.len() ==> final(self)@ == old(self)@.subrange(0, len as int),
            len > old(self)@.len() ==> final(self)@ == old(self)@,
    {
        self.storage.truncate(len);
    }
}

impl<T: Copy> CellVec<T> {
    /// Removes and returns the top element, absent when empty.
    pub fn pop(&mut self) -> (r: Option<T>)
        requires
            old(self).wf(),
        ensures
            final(self).wf(),
            final(self).spec_capacity() == old(self).spec_capacity(),
            old(self)@.len() == 0 ==> r is None && final(self)@ == old(self)@,
            old(self)@.len() > 0 ==> r == Some(old(self)@.last()) && final(self)@ == old(
                self,
            )@.drop_last(),
    {
        let r = self.storage.pop();
        proof {
            if old(self)@.len() > 0 {
                assert(final(self)@ =~= old(self)@.drop_last());
            }
        }
        r
    }

    /// Drops every element without running destructors; only offered where
    /// elements are plain copies so nothing is leaked.
    pub fn clear_fast(&mut self)
        requires
            old(self).wf(),
        ensures
            final(self)@ =~= Seq::<T>::empty(),
            final(self).spec_capacity() == old(self).spec_capacity(),
            final(self).wf(),
    {
        self.storage.clear();
    }

    /// The elements held, as a slice.
    pub fn as_slice(&self) -> (s: &[T])
        ensures
            s@ == self@,
    {
        self.storage.as_slice()
    }

    /// Element at `index`, absent when out of bounds.
    pub fn get(&self, index: usize) -> (r: Option<T>)
        ensures
            index < self@.len() ==> r == Some(self@[index as int]),
            index >= self@.len() ==> r is None,
    {
        if index < self.storage.len() {
            Some(self.storage[index])
        } else {
            None
        }
    }

    /// Element at `index`; the index must be in bounds.
    pub fn index(&self, index: usize) -> (r: T)
        requires
            index < self@.len(),
        ensures
            r == self@[index as int],
    {
        self.storage[index]
    }
}

} // verus!
