//! A growable array whose capacity doubles whenever it runs out.
use vstd::prelude::*;

verus! {

/// The capacity after growing from `cap`: one slot at first, then twice as
/// many.
pub open spec fn grown(cap: nat) -> nat {
    if cap == 0 {
        1
    } else {
        2 * cap
    }
}

/// The storage of a `Vec`: its elements and the capacity set aside for them.
pub struct InnerVec<T> {
    buf: std::vec::Vec<T>,
    capacity: usize,
}

impl<T> InnerVec<T> {
    /// The stored elements, first to last.
    pub closed spec fn view(&self) -> Seq<T> {
        self.buf@
    }

    /// The capacity set aside.
    pub closed spec fn cap(&self) -> nat {
        self.capacity as nat
    }

    /// Empty storage with no capacity.
    pub fn new() -> (r: Self)
        ensures
            r@ == Seq::<T>::empty(),
            r.cap() == 0,
    {
        InnerVec { buf: std::vec::Vec::new(), capacity: 0 }
    }

    /// The capacity set aside.
    pub fn get_capacity(&self) -> (r: usize)
        ensures
            r == self.cap(),
    {
        self.capacity
    }

    /// Grows the capacity: to one slot when there is none, else twice as many,
    /// and sets aside storage for that many elements.
    pub fn enlarge(&mut self)
        requires
            grown(old(self).cap()) <= usize::MAX,
            old(self)@.len() <= old(self).cap(),
        ensures
            final(self)@ == old(self)@,
            final(self).cap() == grown(old(self).cap()),
    {
        let new_capacity = if self.capacity == 0 {
            1
        } else {
            2 * self.capacity
        };
        self.buf.reserve(new_capacity - self.buf.len());
        self.capacity = new_capacity;
    }
}

/// A growable array of `T`.
pub struct Vec<T> {
    inner: InnerVec<T>,
    length: usize,
}

impl<T> Vec<T> {
    /// The elements, first to last.
    pub closed spec fn view(&self) -> Seq<T> {
        self.inner@
    }

    /// The capacity set aside.
    pub closed spec fn cap(&self) -> nat {
        self.inner.cap()
    }

    /// The length is tracked exactly and never exceeds the capacity.
    pub closed spec fn wf(&self) -> bool {
        &&& self.length == self.inner@.len()
        &&& self.length <= self.inner.cap()
    }

    /// An empty array with no capacity.
    pub fn new() -> (r: Self)
        ensures
            r.wf(),
            r@ == Seq::<T>::empty(),
            r.cap() == 0,
    {
        Vec { inner: InnerVec::new(), length: 0 }
    }

    /// Appends `value`, growing the capacity first when it is used up.
    pub fn push(&mut self, value: T)
        requires
            old(self).wf(),
            old(self)@.len() + 1 > old(self).cap() ==> grown(old(self).cap()) <= usize::MAX,
        ensures
            final(self).wf(),
            final(self)@ == old(self)@.push(value),
            final(self).cap() == if old(self)@.len() + 1 > old(self).cap() {
                grown(old(self).cap())
            } else {
                old(self).cap()
            },
    {
        self.check_capacity(1);
        self.inner.buf.push(value);
        self.length = self.length + 1;
    }

    /// Removes and returns the last element, or `None` when there is none.
    pub fn pop(&mut self) -> (r: Option<T>)
        requires
            old(self).wf(),
        ensures
            final(self).wf(),
            final(self).cap() == old(self).cap(),
            old(self)@.len() == 0 ==> r is None && final(self)@ == old(self)@,
            old(self)@.len() > 0 ==> r == Some(old(self)@.last()) && final(self)@ == old(
                self,
            )@.drop_last(),
    {
        if self.length > 0 {
            self.length = self.length - 1;
            self.inner.buf.pop()
        } else {
            None
        }
    }

    /// The number of elements.
    pub fn length(&self) -> (r: usize)
        requires
            self.wf(),
        ensures
            r == self@.len(),
    {
        self.length
    }

    /// The capacity set aside.
    pub fn capacity(&self) -> (r: usize)
        ensures
            r == self.cap(),
    {
        self.inner.get_capacity()
    }

    /// Grows the capacity once if `new_elements` more elements would not fit.
    fn check_capacity(&mut self, new_elements: usize)
        requires
            old(self).wf(),
            new_elements == 1,
            old(self)@.len() + new_elements > old(self).cap() ==> grown(old(self).cap())
                <= usize::MAX,
        ensures
            final(self).wf(),
            final(self)@ == old(self)@,
            final(self).length == old(self).length,
            final(self).length + new_elements <= final(self).cap(),
            final(self).cap() == if old(self)@.len() + new_elements > old(self).cap() {
                grown(old(self).cap())
            } else {
                old(self).cap()
            },
    {
        if self.length + new_elements > self.inner.get_capacity() {
            self.inner.enlarge();
        }
    }
}

} // verus!
