//! A single-owner handle to one value that lives in an object of the pool.

use super::Heap;
use vstd::layout::size_of;
use vstd::prelude::*;

verus! {

/// An owned box: a value together with the pool object that holds it.
/// Giving the box back to the heap frees the object and hands out the
/// value.
pub struct Box<T> {
    addr: usize,
    value: T,
}

impl<T> View for Box<T> {
    type V = T;

    /// The value in the box.
    closed spec fn view(&self) -> T {
        self.value
    }
}

impl<T> Box<T> {
    /// Address of the pool object that holds the value.
    pub closed spec fn addr(&self) -> usize {
        self.addr
    }

    /// Puts `val` in a box, in a fresh object of the pool. Returns `None`
    /// if the heap has no object left.
    pub fn new(val: T, heap: &mut Heap) -> (r: Option<Self>)
        requires
            old(heap).wf(),
            size_of::<T>() <= 256,
        ensures
            final(heap).wf(),
            match r {
                Some(b) => {
                    &&& b@ == val
                    &&& !old(heap).pool().is_live(b.addr() as int)
                    &&& final(heap).pool().live() == old(heap).pool().live().insert(
                        b.addr() as int,
                    )
                    &&& final(heap).live_objects() == old(heap).live_objects() + 1
                },
                None => {
                    &&& old(heap).pool().free_list().len() == 0
                    &&& old(heap).chunks().is_exhausted()
                    &&& final(heap).pool().live() == old(heap).pool().live()
                },
            },
    {
        match heap.alloc_object() {
            Some(addr) => Some(Box { addr, value: val }),
            None => None,
        }
    }

    /// Gives the box back to the heap: frees its pool object and returns
    /// the value that was in it.
    pub fn free(self, heap: &mut Heap) -> (val: T)
        requires
            old(heap).wf(),
            old(heap).pool().is_live(self.addr() as int),
        ensures
            val == self@,
            final(heap).wf(),
            final(heap).pool().live() == old(heap).pool().live().remove(self.addr() as int),
            final(heap).live_objects() + 1 == old(heap).live_objects(),
    {
        heap.free_object(self.addr);
        self.value
    }

    /// The value in the box.
    pub fn get(&self) -> (r: &T)
        ensures
            *r == self@,
    {
        &self.value
    }

    /// The value in the box, to be changed in place.
    pub fn get_mut(&mut self) -> (r: &mut T)
        ensures
            *r == old(self)@,
            final(self)@ == *final(r),
            final(self).addr() == old(self).addr(),
    {
        &mut self.value
    }

    /// Address of the pool object that holds the value.
    pub fn address(&self) -> (a: usize)
        ensures
            a == self.addr(),
    {
        self.addr
    }
}

impl Heap {
    /// Puts `value` in a box, in a fresh object of the pool. Returns `None`
    /// if the heap has no object left.
    pub fn allocate<T>(&mut self, value: T) -> (r: Option<Box<T>>)
        requires
            old(self).wf(),
            size_of::<T>() <= 256,
        ensures
            final(self).wf(),
            match r {
                Some(b) => {
                    &&& b@ == value
                    &&& !old(self).pool().is_live(b.addr() as int)
                    &&& final(self).pool().live() == old(self).pool().live().insert(
                        b.addr() as int,
                    )
                    &&& final(self).live_objects() == old(self).live_objects() + 1
                },
                None => {
                    &&& old(self).pool().free_list().len() == 0
                    &&& old(self).chunks().is_exhausted()
                    &&& final(self).pool().live() == old(self).pool().live()
                },
            },
    {
        Box::new(value, self)
    }

    /// Takes a box back: frees its pool object and returns the value that
    /// was in it.
    pub fn free<T>(&mut self, boxed: Box<T>) -> (value: T)
        requires
            old(self).wf(),
            old(self).pool().is_live(boxed.addr() as int),
        ensures
            value == boxed@,
            final(self).wf(),
            final(self).pool().live() == old(self).pool().live().remove(boxed.addr() as int),
            final(self).live_objects() + 1 == old(self).live_objects(),
    {
        boxed.free(self)
    }
}

} // verus!
