//! A single-threaded reference-counted pointer.
use vstd::prelude::*;

verus! {

/// Relies on std::rc::Rc::strong_count: the number of `Rc` pointers to the
/// allocation.
#[verifier::external_body]
fn std_rc_strong_count<T>(p: &std::rc::Rc<T>) -> usize {
    std::rc::Rc::strong_count(p)
}

/// A pointer to a value shared by all its clones; the value is dropped with
/// the last of them.
pub struct Rc<T> {
    inner: std::rc::Rc<T>,
}

impl<T> Rc<T> {
    /// The shared value.
    pub closed spec fn view(&self) -> T {
        *self.inner
    }

    /// A new allocation holding `value`.
    pub fn new(value: T) -> (r: Self)
        ensures
            r@ == value,
    {
        Rc { inner: std::rc::Rc::new(value) }
    }

    /// The shared value.
    pub fn get(&self) -> (r: &T)
        ensures
            *r == self@,
        opens_invariants none
        no_unwind
    {
        &*self.inner
    }

    /// How many pointers share the value.
    pub fn strong_count(&self) -> usize {
        std_rc_strong_count(&self.inner)
    }
}

impl<T> Clone for Rc<T> {
    /// Another pointer to the same value.
    fn clone(&self) -> (r: Self)
        ensures
            r@ == self@,
    {
        Rc { inner: self.inner.clone() }
    }
}

impl<T> std::ops::Deref for Rc<T> {
    type Target = T;

    /// The shared value.
    fn deref(&self) -> (r: &T)
        ensures
            *r == self@,
    {
        &*self.inner
    }
}

} // verus!
