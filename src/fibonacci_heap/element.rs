//! Nodes of the heap's arena and the handles that name them.
use vstd::prelude::*;

verus! {

/// The tree part of a node: its parent, one of its children, its number of
/// children and its mark.
#[derive(Clone, Copy)]
pub struct FibonacciHeapElementInner {
    /// Number of direct children.
    pub degree: usize,
    /// Set once a non-root node has lost a child since it last became a child.
    pub mark: bool,
    pub parent: Option<usize>,
    /// One arbitrary child; the others are reached through its sibling ring.
    pub child: Option<usize>,
}

impl FibonacciHeapElementInner {
    /// The tree links of a detached node: no parent, no child, unmarked.
    pub fn new() -> (r: Self)
        ensures
            r.degree == 0,
            !r.mark,
            r.parent is None,
            r.child is None,
    {
        FibonacciHeapElementInner { degree: 0, mark: false, parent: None, child: None }
    }
}

/// The two neighbours of a node in its sibling ring.
#[derive(Clone, Copy)]
pub struct SiblingLinks {
    pub left: usize,
    pub right: usize,
}

impl SiblingLinks {
    /// The links of the node at slot `at` in a ring of its own.
    pub fn new(at: usize) -> (r: Self)
        ensures
            r.left == at,
            r.right == at,
    {
        SiblingLinks { left: at, right: at }
    }
}

/// One slot of the arena: the key and payload of a live node, or nothing once
/// the node has been removed, together with the stamp that tells the node
/// apart from any later node stored in the same slot.
pub struct FibonacciHeapElement<K, T> {
    pub stamp: usize,
    pub entry: Option<(K, T)>,
}

impl<K, T> FibonacciHeapElement<K, T> {
    /// A live slot holding `key` and `data`, stamped with `stamp`.
    pub fn new(key: K, data: T, stamp: usize) -> (r: Self)
        ensures
            r.stamp == stamp,
            r.entry == Some((key, data)),
    {
        FibonacciHeapElement { stamp, entry: Some((key, data)) }
    }
}

/// A handle on a node: its arena slot and the stamp it was given on insertion.
/// Once the node is removed the handle no longer matches any live node.
#[derive(Clone, Copy, PartialEq, Eq, Structural, Debug)]
pub struct FibHeapRef {
    pub index: usize,
    pub stamp: usize,
}

impl FibHeapRef {
    /// The handle of the node that `elem` holds at slot `index`.
    pub fn from_elem<K, T>(elem: &FibonacciHeapElement<K, T>, index: usize) -> (r: Self)
        ensures
            r.index == index,
            r.stamp == elem.stamp,
    {
        FibHeapRef { index, stamp: elem.stamp }
    }
}

} // verus!
