//! A growable cell vector of plain values: append at the end, read and
//! overwrite in place by index.  Out-of-range reads and writes are ruled
//! out by contract rather than checked at run time.

use vstd::prelude::*;

verus! {

/// A vector of copyable values with push, indexed read and indexed write.
pub struct VecCell<T: Copy> {
    vec: Vec<T>,
}

impl<T: Copy> View for VecCell<T> {
    type V = Seq<T>;

    /// The stored values, in insertion order.
    closed spec fn view(&self) -> Seq<T> {
        self.vec@
    }
}

impl<T: Copy> VecCell<T> {
    /// A fresh, empty cell vector.
    pub fn new() -> (r: VecCell<T>)
        ensures
            r@ == Seq::<T>::empty(),
    {
        VecCell { vec: Vec::new() }
    }

    /// Appends `val`; every existing element keeps its index and value.
    pub fn push(&mut self, val: T)
        ensures
            final(self)@ == old(self)@.push(val),
    {
        self.vec.push(val);
    }

    /// Reads the element at `index`.
    pub fn get(&self, index: usize) -> (r: T)
        requires
            index < self@.len(),
        ensures
            r == self@[index as int],
    {
        self.vec[index]
    }

    /// Overwrites the element at `index`; no other element changes.
    pub fn set(&mut self, index: usize, val: T)
        requires
            index < old(self)@.len(),
        ensures
            final(self)@ == old(self)@.update(index as int, val),
    {
        self.vec[index] = val;
    }
}

} // verus!
