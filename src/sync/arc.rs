//! An atomically reference-counted pointer.
use vstd::prelude::*;

verus! {

/// Relies on std::sync::Arc::strong_count: the number of `Arc` pointers to
/// the allocation.
#[verifier::external_body]
fn std_arc_strong_count<T>(p: &std::sync::Arc<T>) -> usize {
    std::sync::Arc::strong_count(p)
}

/// A pointer to a value shared by all its clones across threads; the value is
/// dropped with the last of them.
pub struct Arc<T> {
    inner: std::sync::Arc<T>,
}

impl<T> Arc<T> {
    /// The shared value.
    pub closed spec fn view(&self) -> T {
        *self.inner
    }

    /// A new allocation holding `value`.
    pub fn new(value: T) -> (r: Self)
        ensures
            r@ == value,
    {
        Arc { inner: std::sync::Arc::new(value) }
    }

    /// The shared value.
    pub fn get(&self) -> (r: &T)
        ensures
            *r == self@,
    {
        &*self.inner
    }

    /// How many pointers share the value.
    pub fn strong_count(&self) -> usize {
        std_arc_strong_count(&self.inner)
    }
}

impl<T> Clone for Arc<T> {
    /// Another pointer to the same value.
    fn clone(&self) -> (r: Self)
        ensures
            r@ == self@,
    {
        Arc { inner: self.inner.clone() }
    }
}

impl<T> std::ops::Deref for Arc<T> {
    type Target = T;

    /// The shared value.
    fn deref(&self) -> (r: &T)
        ensures
            *r == self@,
    {
        &*self.inner
    }
}

} // verus!
