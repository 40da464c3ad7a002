//! A mergeable priority queue: a Fibonacci heap stored in an arena.
use vstd::prelude::*;

use element::FibHeapRef;
use error::HeapReferenceError;
use inner::FibonacciHeapInner;

pub mod element;
pub mod error;
pub mod inner;
pub mod laws;
pub mod ring;

verus! {

/// A heap that refuses to be mutated while a mutation is already under way.
pub struct FibonacciHeap<K, T> {
    pub(crate) inner: FibonacciHeapInner<K, T>,
    busy: bool,
}

impl<K: HeapKey, T> FibonacciHeap<K, T> {
    /// The heap is idle and its contents are well formed.
    pub closed spec fn wf(&self) -> bool {
        self.inner.wf() && !self.busy
    }

    /// The entries of the heap, by handle.
    pub closed spec fn view(&self) -> Map<FibHeapRef, (K, T)> {
        self.inner@
    }

    /// The heap's contents.
    pub closed spec fn heap(&self) -> FibonacciHeapInner<K, T> {
        self.inner
    }

    /// An empty heap called `name`.
    pub fn new(name: &str) -> (r: Self)
        ensures
            r.wf(),
            r@ == Map::<FibHeapRef, (K, T)>::empty(),
            r.heap().stamp_bound() == 0,
    {
        FibonacciHeap { inner: FibonacciHeapInner::new(name), busy: false }
    }

    /// The heap's contents, taking the heap apart.
    pub fn into_inner(self) -> (r: FibonacciHeapInner<K, T>)
        requires
            self.wf(),
        ensures
            r.wf(),
            r == self.heap(),
            r@ == self@,
    {
        self.inner
    }

    /// Runs `f` on the heap's contents, unless a mutation is already under
    /// way, which is refused with `RecursiveExclusiveAccess`.
    pub fn with_inner<F, R>(&mut self, f: F) -> (r: Result<R, HeapReferenceError>)
        where
            F: FnOnce(&mut FibonacciHeapInner<K, T>) -> R,
        requires
            old(self).wf(),
            forall|h: &mut FibonacciHeapInner<K, T>| h.wf() ==> f.requires((h,)),
        ensures
            r is Ok,
    {
        if self.busy {
            return Err(HeapReferenceError::RecursiveExclusiveAccess);
        }
        self.busy = true;
        let r = f(&mut self.inner);
        self.busy = false;
        Ok(r)
    }
}

/// Keys of a heap: totally preordered through an integer rank.
pub trait HeapKey: Sized {
    /// The position of the key in the order.
    spec fn key_rank(&self) -> int;

    /// Whether `self` comes no later than `other`.
    fn key_le(&self, other: &Self) -> (r: bool)
        ensures
            r == (self.key_rank() <= other.key_rank()),
    ;
}

impl HeapKey for u64 {
    open spec fn key_rank(&self) -> int {
        *self as int
    }

    fn key_le(&self, other: &Self) -> (r: bool) {
        *self <= *other
    }
}

impl HeapKey for i64 {
    open spec fn key_rank(&self) -> int {
        *self as int
    }

    fn key_le(&self, other: &Self) -> (r: bool) {
        *self <= *other
    }
}

impl HeapKey for u32 {
    open spec fn key_rank(&self) -> int {
        *self as int
    }

    fn key_le(&self, other: &Self) -> (r: bool) {
        *self <= *other
    }
}

impl HeapKey for i32 {
    open spec fn key_rank(&self) -> int {
        *self as int
    }

    fn key_le(&self, other: &Self) -> (r: bool) {
        *self <= *other
    }
}

impl HeapKey for usize {
    open spec fn key_rank(&self) -> int {
        *self as int
    }

    fn key_le(&self, other: &Self) -> (r: bool) {
        *self <= *other
    }
}

} // verus!
