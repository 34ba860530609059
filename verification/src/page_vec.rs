//! A minimal resizable sequence whose backing storage is sized in whole
//! pages.
//!
//! This is the slab allocator's own bookkeeping store: it must not
//! allocate through the slab allocator itself, so its capacity grows by
//! whole pages obtained from the page supply underneath. Here the
//! contents are the model; the capacity field keeps the page-granular
//! accounting the storage would use.

use vstd::prelude::*;

verus! {

pub struct PageVec<T> {
    len: usize,
    capacity: usize,
    data: Vec<T>,
}

impl<T> View for PageVec<T> {
    type V = Seq<T>;

    closed spec fn view(&self) -> Seq<T> {
        self.data@
    }
}

impl<T> PageVec<T> {
    pub closed spec fn spec_capacity(self) -> int {
        self.capacity as int
    }

    /// The stored length agrees with the contents and fits the capacity.
    pub open spec fn wf(self) -> bool {
        &&& self.view().len() <= self.spec_capacity()
        &&& self.spec_len() == self.view().len()
    }

    pub closed spec fn spec_len(self) -> int {
        self.len as int
    }

    pub fn new() -> (r: PageVec<T>)
        ensures
            r.wf(),
            r@ =~= Seq::<T>::empty(),
            r@.len() == 0,
            r.spec_capacity() == 0,
    {
        PageVec { len: 0, capacity: 0, data: Vec::new() }
    }

    pub fn len(&self) -> (r: usize)
        requires
            self.wf(),
        ensures
            r == self@.len(),
    {
        self.len
    }

    pub fn is_empty(&self) -> (r: bool)
        requires
            self.wf(),
        ensures
            r == (self@.len() == 0),
    {
        self.len == 0
    }

    pub fn capacity(&self) -> (r: usize)
        ensures
            r == self.spec_capacity(),
    {
        self.capacity
    }

    /// Grow the backing storage to hold at least `capacity` elements,
    /// keeping the contents. Storage is acquired in whole pages; the
    /// contents are copied over and the old pages released.
    pub fn ensure_capacity(&mut self, capacity: usize)
        ensures
            final(self)@ == old(self)@,
            final(self).spec_len() == old(self).spec_len(),
            final(self).spec_capacity() >= capacity,
            final(self).spec_capacity() >= old(self).spec_capacity(),
    {
        if capacity > self.capacity {
            if capacity >= usize::MAX / 2 {
                self.capacity = usize::MAX;
            } else {
                // smallest power of two holding the request, as the
                // storage below would allocate it
                let mut np: usize = 1;
                while np < capacity
                    invariant
                        1 <= np,
                        capacity < usize::MAX / 2,
                    decreases 2 * capacity - np,
                {
                    proof {
                        assert(np <= usize::MAX / 2);
                    }
                    np = np * 2;
                }
                if np > self.capacity {
                    self.capacity = np;
                }
            }
        }
    }

    pub fn push(&mut self, element: T)
        requires
            old(self).wf(),
        ensures
            final(self).wf(),
            final(self)@ == old(self)@.push(element),
    {
        self.data.push(element);
        let n = self.data.len();
        self.ensure_capacity(n);
        self.len = n;
    }

    pub fn pop(&mut self) -> (r: Option<T>)
        requires
            old(self).wf(),
        ensures
            final(self).wf(),
            match r {
                Some(e) => old(self)@.len() > 0 && e == old(self)@.last() && final(self)@ == old(
                    self,
                )@.drop_last(),
                None => old(self)@.len() == 0 && final(self)@ == old(self)@,
            },
    {
        if self.len > 0 {
            self.len = self.len - 1;
            self.data.pop()
        } else {
            None
        }
    }

    /// Insert at `index`, shifting the elements after it up.
    pub fn insert(&mut self, index: usize, element: T)
        requires
            old(self).wf(),
            index <= old(self)@.len(),
        ensures
            final(self).wf(),
            final(self)@ == old(self)@.insert(index as int, element),
    {
        self.data.insert(index, element);
        let n = self.data.len();
        self.ensure_capacity(n);
        self.len = n;
    }

    /// Remove the element at `index`, shifting the elements after it
    /// down, and return it.
    pub fn remove(&mut self, index: usize) -> (r: T)
        requires
            old(self).wf(),
            index < old(self)@.len(),
        ensures
            final(self).wf(),
            r == old(self)@[index as int],
            final(self)@ == old(self)@.remove(index as int),
    {
        self.len = self.len - 1;
        self.data.remove(index)
    }

    pub fn as_slice(&self) -> (r: &[T])
        ensures
            r@ == self@,
    {
        self.data.as_slice()
    }

    /// The element at `index`.
    pub fn get(&self, index: usize) -> (r: &T)
        requires
            index < self@.len(),
        ensures
            *r == self@[index as int],
    {
        &self.data[index]
    }

    /// Mutable access to the element at `index`.
    pub fn get_mut(&mut self, index: usize) -> (r: &mut T)
        requires
            old(self).wf(),
            index < old(self)@.len(),
        ensures
            *r == old(self)@[index as int],
            final(self)@ == old(self)@.update(index as int, *final(r)),
            final(self).wf(),
            final(self).spec_capacity() == old(self).spec_capacity(),
    {
        &mut self.data[index]
    }

    /// Replace the element at `index`.
    pub fn set(&mut self, index: usize, element: T)
        requires
            old(self).wf(),
            index < old(self)@.len(),
        ensures
            final(self).wf(),
            final(self)@ == old(self)@.update(index as int, element),
            final(self).spec_capacity() == old(self).spec_capacity(),
    {
        let r = self.get_mut(index);
        *r = element;
    }
}

} // verus!
